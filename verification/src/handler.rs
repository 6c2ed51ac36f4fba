//! The input dispatcher: one key event at a time is routed either to the
//! edit session (when one is open) or to list navigation and the global
//! commands. Exactly one of the two layers consumes each event; the one
//! exception is Ctrl-C, which always quits.
use vstd::prelude::*;

use crate::app::App;
use crate::app::AppView;
use crate::app::BookEditFocus;
use crate::app::BookState;
use crate::app::EditView;
use crate::app::InputMode;
use crate::app::appended_book;
use crate::app::can_append;
use crate::app::focus_pred;
use crate::app::focus_succ;
use crate::app::reclamped;
use crate::app::sel_next;
use crate::app::sel_prev;
use crate::codec::drop_last_char;
use crate::codec::push_char;

verus! {

/// A key press as the core consumes it: the key itself and whether the
/// control modifier was held.
#[derive(Debug, Clone, Copy)]
pub enum KeyCode {
    Char(char),
    Enter,
    Esc,
    Backspace,
    Up,
    Down,
    Tab,
    BackTab,
    Other,
}

/// A key event.
#[derive(Debug, Clone, Copy)]
pub struct KeyEvent {
    pub code: KeyCode,
    pub ctrl: bool,
}

impl KeyEvent {
    /// A plain key press without modifiers.
    pub fn plain(code: KeyCode) -> (r: KeyEvent)
        ensures
            r.code == code,
            !r.ctrl,
    {
        KeyEvent { code: code, ctrl: false }
    }
}

/// What one key does to an open edit session.
pub enum EditStep {
    Stay(EditView),
    Cancel,
    Commit(Seq<char>, Seq<char>),
}

/// A fresh edit session's model: empty buffers, focus on the title field.
pub open spec fn fresh_edit() -> EditView {
    EditView {
        title: Seq::empty(),
        author: Seq::empty(),
        focus: BookEditFocus::Title,
        is_edit: false,
    }
}

/// The edit session's reaction to one key. Escape discards the session;
/// Tab and Down advance focus, BackTab and Up move it back; Enter advances
/// focus from a text field, commits on the confirm button and discards on
/// the cancel button; printable keys and Backspace edit the focused buffer.
pub open spec fn edit_step(ev: KeyEvent, e: EditView) -> EditStep {
    match ev.code {
        KeyCode::Esc => EditStep::Cancel,
        KeyCode::Tab => EditStep::Stay(EditView { focus: focus_succ(e.focus), ..e }),
        KeyCode::Down => EditStep::Stay(EditView { focus: focus_succ(e.focus), ..e }),
        KeyCode::BackTab => EditStep::Stay(EditView { focus: focus_pred(e.focus), ..e }),
        KeyCode::Up => EditStep::Stay(EditView { focus: focus_pred(e.focus), ..e }),
        KeyCode::Enter => match e.focus {
            BookEditFocus::Title => EditStep::Stay(
                EditView { focus: BookEditFocus::Author, ..e },
            ),
            BookEditFocus::Author => EditStep::Stay(
                EditView { focus: BookEditFocus::ConfirmBtn, ..e },
            ),
            BookEditFocus::ConfirmBtn => EditStep::Commit(e.title, e.author),
            BookEditFocus::CancelBtn => EditStep::Cancel,
        },
        KeyCode::Backspace => match e.focus {
            BookEditFocus::Title => EditStep::Stay(
                EditView {
                    title: if e.title.len() == 0 {
                        e.title
                    } else {
                        e.title.drop_last()
                    },
                    ..e
                },
            ),
            BookEditFocus::Author => EditStep::Stay(
                EditView {
                    author: if e.author.len() == 0 {
                        e.author
                    } else {
                        e.author.drop_last()
                    },
                    ..e
                },
            ),
            _ => EditStep::Stay(e),
        },
        KeyCode::Char(c) => if ev.ctrl {
            EditStep::Stay(e)
        } else {
            match e.focus {
                BookEditFocus::Title => EditStep::Stay(EditView { title: e.title.push(c), ..e }),
                BookEditFocus::Author => EditStep::Stay(
                    EditView { author: e.author.push(c), ..e },
                ),
                _ => EditStep::Stay(e),
            }
        },
        KeyCode::Other => EditStep::Stay(e),
    }
}

/// Whether the event is the universal quit chord.
pub open spec fn is_ctrl_c(ev: KeyEvent) -> bool {
    ev.ctrl && (ev.code == KeyCode::Char('c') || ev.code == KeyCode::Char('C'))
}

/// The session after one key in normal mode: quit keys stop the loop, 'd'
/// removes the selected record and re-clamps the selection, 'a' opens a
/// fresh edit session with the overlay, Up/'k' and Down/'j' move the
/// selection, anything else is ignored.
pub open spec fn normal_step(ev: KeyEvent, a: AppView) -> AppView {
    match ev.code {
        KeyCode::Esc => AppView { running: false, ..a },
        KeyCode::Up => AppView { selected: sel_prev(a.selected, a.items.len() as int), ..a },
        KeyCode::Down => AppView { selected: sel_next(a.selected, a.items.len() as int), ..a },
        KeyCode::Char(c) => if c == 'q' {
            AppView { running: false, ..a }
        } else if c == 'd' {
            match a.selected {
                Some(i) => AppView {
                    items: a.items.remove(i),
                    selected: reclamped(i, a.items.len() - 1),
                    ..a
                },
                None => a,
            }
        } else if c == 'a' {
            AppView {
                edit: Some(fresh_edit()),
                show_popup: true,
                input_mode: InputMode::Editing,
                ..a
            }
        } else if c == 'k' {
            AppView { selected: sel_prev(a.selected, a.items.len() as int), ..a }
        } else if c == 'j' {
            AppView { selected: sel_next(a.selected, a.items.len() as int), ..a }
        } else {
            a
        },
        _ => a,
    }
}

/// The session after one key event. Ctrl-C always quits; while an edit
/// session is open every other key goes to it alone; otherwise the key is a
/// normal-mode command. A commit without id headroom is ignored.
pub open spec fn dispatch(ev: KeyEvent, a: AppView) -> AppView {
    if is_ctrl_c(ev) {
        AppView { running: false, ..a }
    } else if a.edit is Some {
        match edit_step(ev, a.edit->Some_0) {
            EditStep::Stay(e2) => AppView { edit: Some(e2), ..a },
            EditStep::Cancel => AppView {
                edit: None,
                show_popup: false,
                input_mode: InputMode::Normal,
                ..a
            },
            EditStep::Commit(t, au) => if can_append(a.items) {
                AppView {
                    items: a.items.push(appended_book(a.items, t, au)),
                    edit: None,
                    show_popup: false,
                    input_mode: InputMode::Normal,
                    ..a
                }
            } else {
                a
            },
        }
    } else {
        normal_step(ev, a)
    }
}

/// Whether the event changed the collection, so that the caller must
/// rewrite the on-disk mirror.
pub open spec fn dispatch_persists(ev: KeyEvent, a: AppView) -> bool {
    if is_ctrl_c(ev) {
        false
    } else if a.edit is Some {
        (edit_step(ev, a.edit->Some_0) matches EditStep::Commit(_, _)) && can_append(a.items)
    } else {
        match ev.code {
            KeyCode::Char(c) => c == 'd' && a.selected is Some,
            _ => false,
        }
    }
}

/// Handles one key event and updates the session; returns whether the
/// collection changed and the mirror must be rewritten.
pub fn handle_key_events(key_event: KeyEvent, app: &mut App) -> (persist: bool)
    requires
        old(app)@.inv(),
    ensures
        final(app)@.inv(),
        final(app)@ == dispatch(key_event, old(app)@),
        persist == dispatch_persists(key_event, old(app)@),
{
    if key_event.ctrl {
        let quit_chord = match key_event.code {
            KeyCode::Char(c) => c == 'c' || c == 'C',
            _ => false,
        };
        if quit_chord {
            app.running = false;
            return false;
        }
    }
    let editing = app.book_edit_state.is_some();
    if editing {
        let taken = app.book_edit_state.take();
        let mut st = match taken {
            Some(st) => st,
            None => {
                proof {
                    assert(false);
                }
                BookState::default()
            },
        };
        let ghost e0 = st@;
        match key_event.code {
            KeyCode::Esc => {
                app.show_popup = false;
                app.input_mode = InputMode::Normal;
                return false;
            },
            KeyCode::Tab => {
                st.focus = st.focus.next_focus();
            },
            KeyCode::Down => {
                st.focus = st.focus.next_focus();
            },
            KeyCode::BackTab => {
                st.focus = st.focus.prev_focus();
            },
            KeyCode::Up => {
                st.focus = st.focus.prev_focus();
            },
            KeyCode::Enter => {
                match st.focus {
                    BookEditFocus::Title => {
                        st.focus = BookEditFocus::Author;
                    },
                    BookEditFocus::Author => {
                        st.focus = BookEditFocus::ConfirmBtn;
                    },
                    BookEditFocus::ConfirmBtn => {
                        if app.may_append() {
                            app.show_popup = false;
                            app.input_mode = InputMode::Normal;
                            app.append(st.title, st.author);
                            return true;
                        } else {
                            app.book_edit_state = Some(st);
                            return false;
                        }
                    },
                    BookEditFocus::CancelBtn => {
                        app.show_popup = false;
                        app.input_mode = InputMode::Normal;
                        return false;
                    },
                }
            },
            KeyCode::Backspace => {
                match st.focus {
                    BookEditFocus::Title => {
                        let shorter = drop_last_char(&st.title);
                        st.title = shorter;
                    },
                    BookEditFocus::Author => {
                        let shorter = drop_last_char(&st.author);
                        st.author = shorter;
                    },
                    _ => {},
                }
            },
            KeyCode::Char(c) => {
                if !key_event.ctrl {
                    match st.focus {
                        BookEditFocus::Title => {
                            push_char(&mut st.title, c);
                        },
                        BookEditFocus::Author => {
                            push_char(&mut st.author, c);
                        },
                        _ => {},
                    }
                }
            },
            KeyCode::Other => {},
        }
        proof {
            assert(edit_step(key_event, e0) matches EditStep::Stay(e2) && e2 == st@);
        }
        app.book_edit_state = Some(st);
        return false;
    }
    match key_event.code {
        KeyCode::Esc => {
            app.quit();
            false
        },
        KeyCode::Up => {
            app.previous();
            false
        },
        KeyCode::Down => {
            app.next();
            false
        },
        KeyCode::Char(c) => {
            if c == 'q' {
                app.quit();
                false
            } else if c == 'd' {
                match app.selected {
                    Some(i) => {
                        app.remove_at(i);
                        true
                    },
                    None => false,
                }
            } else if c == 'a' {
                app.book_edit_state = Some(BookState::default());
                app.show_popup = true;
                app.input_mode = InputMode::Editing;
                proof {
                    assert(app@.edit->Some_0 =~= fresh_edit());
                    assert(app@ =~= dispatch(key_event, old(app)@));
                }
                false
            } else if c == 'k' {
                app.previous();
                false
            } else if c == 'j' {
                app.next();
                false
            } else {
                false
            }
        },
        _ => false,
    }
}

} // verus!
