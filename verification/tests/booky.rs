use booky::app::{App, Book, BookEditFocus, InputMode};
use booky::codec::{decode, encode_to_string, load_collection};
use booky::handler::{handle_key_events, KeyCode, KeyEvent};

fn key(code: KeyCode) -> KeyEvent {
    KeyEvent::plain(code)
}

fn ctrl(code: KeyCode) -> KeyEvent {
    KeyEvent { code, ctrl: true }
}

fn app_with(n: usize) -> App {
    let mut app = App::new();
    for i in 0..n {
        app.append(format!("title{}", i), format!("author{}", i));
    }
    app
}

#[test]
fn select_next_cycles_back() {
    // P1: advancing the selection once per record returns to the start.
    let mut app = app_with(3);
    app.selected = Some(1);
    for _ in 0..3 {
        app.next();
    }
    assert_eq!(app.selected, Some(1));
}

#[test]
fn select_previous_cycles_back() {
    // P1, the other direction.
    let mut app = app_with(3);
    app.selected = Some(0);
    for _ in 0..3 {
        app.previous();
    }
    assert_eq!(app.selected, Some(0));
}

#[test]
fn navigation_on_empty_collection_is_a_noop() {
    // P2: no panic, selection stays cleared.
    let mut app = App::new();
    app.next();
    assert_eq!(app.selected, None);
    app.previous();
    assert_eq!(app.selected, None);
}

#[test]
fn first_next_selects_top() {
    let mut app = app_with(2);
    assert_eq!(app.selected, None);
    app.next();
    assert_eq!(app.selected, Some(0));
}

#[test]
fn append_assigns_fresh_id() {
    // P3: length grows by one, the id is above every prior id.
    let mut app = app_with(3);
    let old_len = app.items.len();
    let max_prior = app.items.iter().map(|b| b.id).max().unwrap();
    app.append(String::from("x"), String::from("y"));
    assert_eq!(app.items.len(), old_len + 1);
    assert!(app.items.last().unwrap().id > max_prior);
}

#[test]
fn append_on_empty_starts_at_zero() {
    // P4: the empty collection is no error; ids start at 0.
    let mut app = App::new();
    app.append(String::from("a"), String::from("b"));
    assert_eq!(app.items.len(), 1);
    assert_eq!(app.items[0].id, 0);
}

#[test]
fn remove_reclamps_selection_at_every_index() {
    // P5: removal shrinks by one and re-clamps per the rule.
    let mut app = app_with(3);
    app.selected = Some(0);
    app.remove_at(0);
    assert_eq!(app.items.len(), 2);
    assert_eq!(app.selected, Some(0));

    let mut app = app_with(3);
    app.selected = Some(1);
    app.remove_at(1);
    assert_eq!(app.items.len(), 2);
    assert_eq!(app.selected, Some(0));

    let mut app = app_with(3);
    app.selected = Some(2);
    app.remove_at(2);
    assert_eq!(app.items.len(), 2);
    assert_eq!(app.selected, Some(1));

    let mut app = app_with(1);
    app.selected = Some(0);
    app.remove_at(0);
    assert_eq!(app.items.len(), 0);
    assert_eq!(app.selected, None);
}

#[test]
fn round_trip_plain() {
    // P6: encoding and reloading yields the records, field for field.
    let app = app_with(3);
    let text = encode_to_string(&app.items);
    let back = load_collection(&text);
    assert_eq!(back, app.items);
}

#[test]
fn round_trip_special_characters() {
    // P6 with every escaped character and some unicode.
    let items = vec![
        Book {
            id: 0,
            title: String::from("He said \"hi\"\\now"),
            author: String::from("tab\there\nand newline"),
            genre: String::from("\r"),
            rating_tenths: 95,
            status: String::from("döne ✓"),
        },
        Book {
            id: 7,
            title: String::new(),
            author: String::from("[]{},:"),
            genre: String::new(),
            rating_tenths: 0,
            status: String::new(),
        },
    ];
    let text = encode_to_string(&items);
    let back = load_collection(&text);
    assert_eq!(back, items);
}

#[test]
fn encoding_has_the_exact_layout() {
    let mut app = App::new();
    app.append(String::from("Dune"), String::from("Herbert"));
    let text = encode_to_string(&app.items);
    assert_eq!(
        text,
        "[{\"id\":0,\"title\":\"Dune\",\"author\":\"Herbert\",\"genre\":\"\",\"rating\":10.0,\"status\":\"\"}]"
    );
}

#[test]
fn round_trip_empty() {
    let items: Vec<Book> = Vec::new();
    let text = encode_to_string(&items);
    assert_eq!(text, "[]");
    let back = load_collection(&text);
    assert!(back.is_empty());
}

#[test]
fn encoded_text_is_json_serde_reads_it() {
    // The mirror must stay a plain JSON array: check with an independent parser.
    let items = vec![Book {
        id: 3,
        title: String::from("Dune \"messiah\""),
        author: String::from("Herbert"),
        genre: String::from("sf"),
        rating_tenths: 105,
        status: String::from("read"),
    }];
    let text = encode_to_string(&items);
    let v: serde_json::Value = serde_json::from_str(&text).unwrap();
    let arr = v.as_array().unwrap();
    assert_eq!(arr.len(), 1);
    assert_eq!(arr[0]["id"].as_u64().unwrap(), 3);
    assert_eq!(arr[0]["title"].as_str().unwrap(), "Dune \"messiah\"");
    assert_eq!(arr[0]["author"].as_str().unwrap(), "Herbert");
    assert_eq!(arr[0]["genre"].as_str().unwrap(), "sf");
    assert_eq!(arr[0]["rating"].as_f64().unwrap(), 10.5);
    assert_eq!(arr[0]["status"].as_str().unwrap(), "read");
}

#[test]
fn decodes_compact_json_from_other_writers() {
    // The compact form another serializer writes for the same layout.
    let text = "[{\"id\":1,\"title\":\"A\",\"author\":\"B\",\"genre\":\"\",\"rating\":10.0,\"status\":\"\"}]";
    let back = load_collection(text);
    assert_eq!(back.len(), 1);
    assert_eq!(back[0].id, 1);
    assert_eq!(back[0].title, "A");
    assert_eq!(back[0].author, "B");
    assert_eq!(back[0].genre, "");
    assert_eq!(back[0].rating_tenths, 100);
    assert_eq!(back[0].status, "");
}

#[test]
fn unreadable_text_degrades_to_empty() {
    assert!(load_collection("").is_empty());
    assert!(load_collection("not json").is_empty());
    assert!(load_collection("[{\"id\":1}]").is_empty());
    assert!(load_collection("[]trailing").is_empty());
}

#[test]
fn non_increasing_ids_degrade_to_empty() {
    let items = vec![
        Book {
            id: 5,
            title: String::from("a"),
            author: String::from("b"),
            genre: String::new(),
            rating_tenths: 100,
            status: String::new(),
        },
        Book {
            id: 5,
            title: String::from("c"),
            author: String::from("d"),
            genre: String::new(),
            rating_tenths: 100,
            status: String::new(),
        },
    ];
    let text = encode_to_string(&items);
    assert!(load_collection(&text).is_empty());
}

#[test]
fn decode_rejects_overflowing_id() {
    let text = "[{\"id\":99999999999999999999,\"title\":\"a\",\"author\":\"b\",\"genre\":\"\",\"rating\":10.0,\"status\":\"\"}]";
    let chars: Vec<char> = text.chars().collect();
    assert!(decode(&chars).is_none());
}

#[test]
fn scenario_add_dune() {
    // P7: empty store, add("Dune", "Herbert").
    let mut app = App::new();
    app.append(String::from("Dune"), String::from("Herbert"));
    assert_eq!(app.items.len(), 1);
    let b = &app.items[0];
    assert_eq!(b.id, 0);
    assert_eq!(b.title, "Dune");
    assert_eq!(b.author, "Herbert");
    assert_eq!(b.genre, "");
    assert_eq!(b.rating_tenths as f64 / 10.0, 10.0);
    assert_eq!(b.status, "");
}

#[test]
fn scenario_next_wraps_from_last() {
    // P8: three records, selection on the last, next wraps to 0.
    let mut app = app_with(3);
    app.selected = Some(2);
    app.next();
    assert_eq!(app.selected, Some(0));
}

#[test]
fn scenario_remove_first_of_three() {
    // P9: three records, selection at 0, remove at 0.
    let mut app = app_with(3);
    app.selected = Some(0);
    app.remove_at(0);
    assert_eq!(app.items.len(), 2);
    assert_eq!(app.selected, Some(0));
}

#[test]
fn scenario_open_overlay_and_type() {
    // P10: 'a' in normal mode opens a fresh session with the overlay; the
    // next 'a' is consumed by the edit session as text, so the overlay
    // deterministically stays open (the toggle-close was a defect).
    let mut app = App::new();
    let persist = handle_key_events(key(KeyCode::Char('a')), &mut app);
    assert!(!persist);
    assert!(app.show_popup);
    assert_eq!(app.input_mode, InputMode::Editing);
    let st = app.book_edit_state.as_ref().unwrap();
    assert_eq!(st.title, "");
    assert_eq!(st.author, "");
    assert_eq!(st.focus, BookEditFocus::Title);

    let persist = handle_key_events(key(KeyCode::Char('a')), &mut app);
    assert!(!persist);
    assert!(app.show_popup);
    let st = app.book_edit_state.as_ref().unwrap();
    assert_eq!(st.title, "a");
}

#[test]
fn quit_keys_stop_the_loop() {
    let mut app = App::new();
    assert!(app.running);
    handle_key_events(key(KeyCode::Char('q')), &mut app);
    assert!(!app.running);

    let mut app = App::new();
    handle_key_events(key(KeyCode::Esc), &mut app);
    assert!(!app.running);

    let mut app = App::new();
    handle_key_events(ctrl(KeyCode::Char('c')), &mut app);
    assert!(!app.running);
}

#[test]
fn ctrl_c_quits_even_while_editing() {
    let mut app = App::new();
    handle_key_events(key(KeyCode::Char('a')), &mut app);
    assert!(app.book_edit_state.is_some());
    handle_key_events(ctrl(KeyCode::Char('C')), &mut app);
    assert!(!app.running);
    assert!(app.book_edit_state.is_some());
}

#[test]
fn plain_c_does_not_quit() {
    let mut app = App::new();
    handle_key_events(key(KeyCode::Char('c')), &mut app);
    assert!(app.running);
}

#[test]
fn delete_key_removes_selected_and_persists() {
    let mut app = app_with(2);
    app.selected = Some(1);
    let persist = handle_key_events(key(KeyCode::Char('d')), &mut app);
    assert!(persist);
    assert_eq!(app.items.len(), 1);
    assert_eq!(app.selected, Some(0));
    assert_eq!(app.items[0].title, "title0");
}

#[test]
fn delete_without_selection_is_a_noop() {
    let mut app = app_with(2);
    let persist = handle_key_events(key(KeyCode::Char('d')), &mut app);
    assert!(!persist);
    assert_eq!(app.items.len(), 2);
}

#[test]
fn navigation_keys_move_selection() {
    let mut app = app_with(3);
    handle_key_events(key(KeyCode::Down), &mut app);
    assert_eq!(app.selected, Some(0));
    handle_key_events(key(KeyCode::Char('j')), &mut app);
    assert_eq!(app.selected, Some(1));
    handle_key_events(key(KeyCode::Char('k')), &mut app);
    assert_eq!(app.selected, Some(0));
    handle_key_events(key(KeyCode::Up), &mut app);
    assert_eq!(app.selected, Some(2));
}

#[test]
fn tab_cycles_focus_around() {
    let mut app = App::new();
    handle_key_events(key(KeyCode::Char('a')), &mut app);
    let focus = |app: &App| app.book_edit_state.as_ref().unwrap().focus;
    assert_eq!(focus(&app), BookEditFocus::Title);
    handle_key_events(key(KeyCode::Tab), &mut app);
    assert_eq!(focus(&app), BookEditFocus::Author);
    handle_key_events(key(KeyCode::Tab), &mut app);
    assert_eq!(focus(&app), BookEditFocus::ConfirmBtn);
    handle_key_events(key(KeyCode::Tab), &mut app);
    assert_eq!(focus(&app), BookEditFocus::CancelBtn);
    handle_key_events(key(KeyCode::Tab), &mut app);
    assert_eq!(focus(&app), BookEditFocus::Title);
    handle_key_events(key(KeyCode::BackTab), &mut app);
    assert_eq!(focus(&app), BookEditFocus::CancelBtn);
}

#[test]
fn backspace_edits_the_focused_buffer() {
    let mut app = App::new();
    handle_key_events(key(KeyCode::Char('a')), &mut app);
    handle_key_events(key(KeyCode::Char('h')), &mut app);
    handle_key_events(key(KeyCode::Char('i')), &mut app);
    assert_eq!(app.book_edit_state.as_ref().unwrap().title, "hi");
    handle_key_events(key(KeyCode::Backspace), &mut app);
    assert_eq!(app.book_edit_state.as_ref().unwrap().title, "h");
    handle_key_events(key(KeyCode::Backspace), &mut app);
    handle_key_events(key(KeyCode::Backspace), &mut app);
    assert_eq!(app.book_edit_state.as_ref().unwrap().title, "");
}

#[test]
fn commit_flow_appends_record() {
    let mut app = App::new();
    handle_key_events(key(KeyCode::Char('a')), &mut app);
    for c in "Dune".chars() {
        handle_key_events(key(KeyCode::Char(c)), &mut app);
    }
    // Enter in the title field moves focus to the author field.
    handle_key_events(key(KeyCode::Enter), &mut app);
    assert_eq!(
        app.book_edit_state.as_ref().unwrap().focus,
        BookEditFocus::Author
    );
    for c in "Herbert".chars() {
        handle_key_events(key(KeyCode::Char(c)), &mut app);
    }
    // Enter on the author field focuses the confirm button; Enter commits.
    handle_key_events(key(KeyCode::Enter), &mut app);
    let persist = handle_key_events(key(KeyCode::Enter), &mut app);
    assert!(persist);
    assert!(app.book_edit_state.is_none());
    assert!(!app.show_popup);
    assert_eq!(app.input_mode, InputMode::Normal);
    assert_eq!(app.items.len(), 1);
    assert_eq!(app.items[0].title, "Dune");
    assert_eq!(app.items[0].author, "Herbert");
}

#[test]
fn escape_discards_the_session() {
    let mut app = App::new();
    handle_key_events(key(KeyCode::Char('a')), &mut app);
    handle_key_events(key(KeyCode::Char('x')), &mut app);
    let persist = handle_key_events(key(KeyCode::Esc), &mut app);
    assert!(!persist);
    assert!(app.book_edit_state.is_none());
    assert!(!app.show_popup);
    assert_eq!(app.input_mode, InputMode::Normal);
    assert!(app.items.is_empty());
    assert!(app.running);
}

#[test]
fn cancel_button_discards_the_session() {
    let mut app = App::new();
    handle_key_events(key(KeyCode::Char('a')), &mut app);
    handle_key_events(key(KeyCode::Char('x')), &mut app);
    handle_key_events(key(KeyCode::Tab), &mut app);
    handle_key_events(key(KeyCode::Tab), &mut app);
    handle_key_events(key(KeyCode::Tab), &mut app);
    let persist = handle_key_events(key(KeyCode::Enter), &mut app);
    assert!(!persist);
    assert!(app.book_edit_state.is_none());
    assert!(!app.show_popup);
    assert!(app.items.is_empty());
}

#[test]
fn ids_check_accepts_and_rejects() {
    let app = app_with(3);
    assert!(booky::app::ids_strictly_increasing(&app.items));
    let mut items = app.items.clone();
    items[2].id = 0;
    assert!(!booky::app::ids_strictly_increasing(&items));
}

#[test]
fn tick_and_quit() {
    let mut app = App::new();
    app.tick();
    assert!(app.running);
    app.quit();
    assert!(!app.running);
}
