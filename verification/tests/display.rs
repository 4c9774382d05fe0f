use sprig_llm_core::button::{Button, KeyEvent};
use sprig_llm_core::display::{scroll_bounds, wrap, Guide, Tint, Ui, COLS, MAX_ROWS};
use sprig_llm_core::keyboard::Keyboard;
use sprig_llm_core::predict::StaticPredictor;

fn texts(rows: &[sprig_llm_core::text::BoundedString<COLS>]) -> Vec<String> {
    rows.iter().map(|r| r.as_str().to_string()).collect()
}

#[test]
fn wrapped_row_count_counts_breaks_and_full_rows() {
    assert_eq!(Ui::wrapped_row_count(""), (1, MAX_ROWS));
    assert_eq!(Ui::wrapped_row_count("hello"), (1, 10));
    assert_eq!(Ui::wrapped_row_count("a\nb\n"), (3, 10));
    assert_eq!(Ui::wrapped_row_count(&"x".repeat(26)), (1, 10));
    assert_eq!(Ui::wrapped_row_count(&"x".repeat(27)), (2, 10));
    assert_eq!(Ui::wrapped_row_count(&"x".repeat(52)), (2, 10));
    assert_eq!(Ui::wrapped_row_count(&"x".repeat(53)), (3, 10));
}

#[test]
fn response_shows_the_last_rows() {
    let body: String = (0..15).map(|i| format!("line {i}\n")).collect();
    let rows = Ui::response_rows(&body);
    assert_eq!(rows.len(), MAX_ROWS);
    // 15 lines and a trailing empty row: the last ten are lines 6..15 and "".
    assert_eq!(rows[0].as_str(), "line 6");
    assert_eq!(rows[8].as_str(), "line 14");
    assert_eq!(rows[9].as_str(), "");
}

#[test]
fn long_lines_wrap_at_the_column_count() {
    let body = "abcdefghijklmnopqrstuvwxyz0123";
    let rows = Ui::response_rows(body);
    assert_eq!(texts(&rows), vec!["abcdefghijklmnopqrstuvwxyz".to_string(), "0123".to_string()]);
}

#[test]
fn multibyte_char_that_does_not_fit_a_row_is_dropped() {
    // 25 ASCII bytes leave one byte: the 2-byte 'é' is dropped, then the
    // row is still not full, so 'b' fills it.
    let body = format!("{}éb", "a".repeat(25));
    let rows = Ui::response_rows(&body);
    assert_eq!(texts(&rows), vec![format!("{}b", "a".repeat(25))]);
}

#[test]
fn stream_frame_pads_every_line() {
    let f = Ui::stream_frame("Streaming...", "hi\nthere");
    assert_eq!(f.header.as_str(), format!("{:<26}", "Streaming..."));
    assert_eq!(f.lines.len(), MAX_ROWS);
    assert_eq!(f.lines[0].as_str(), format!("{:<26}", "hi"));
    assert_eq!(f.lines[1].as_str(), format!("{:<26}", "there"));
    for l in &f.lines[2..] {
        assert_eq!(l.as_str(), " ".repeat(26));
    }
    let long = Ui::stream_frame(&"h".repeat(40), "");
    assert_eq!(long.header.as_str(), "h".repeat(26));
}

#[test]
fn scrolled_view_clamps_to_last_screen() {
    let body: String = (0..30).map(|i| format!("r{i}\n")).collect();
    // 31 rows: the last screenful starts at row 21.
    assert_eq!(Ui::scrolled_rows(&body, 0)[0].as_str(), "r0");
    assert_eq!(Ui::scrolled_rows(&body, 5)[0].as_str(), "r5");
    let end = Ui::scrolled_rows(&body, 1000);
    assert_eq!(end.len(), 10);
    assert_eq!(end[0].as_str(), "r21");
    assert_eq!(end[9].as_str(), "");
    assert_eq!(texts(&Ui::scrolled_rows("short", 3)), vec!["short".to_string()]);
}

#[test]
fn scroll_bounds_values() {
    assert_eq!(scroll_bounds(5, 0), (0, 5));
    assert_eq!(scroll_bounds(5, 9), (0, 5));
    assert_eq!(scroll_bounds(31, 4), (4, 14));
    assert_eq!(scroll_bounds(31, 40), (21, 31));
}

#[test]
fn menu_keeps_selection_visible() {
    let items: Vec<String> = (0..20).map(|i| format!("Item {i}")).collect();
    let refs: Vec<&str> = items.iter().map(|s| s.as_str()).collect();
    let m = Ui::menu_layout(&refs, 0, &[]);
    assert_eq!((m.start, m.end), (0, 10));
    assert!(!m.more_above && m.more_below);
    assert_eq!(m.rows[0].text.as_str(), ">Item 0");
    assert!(m.rows[0].selected);
    assert_eq!(m.rows[1].text.as_str(), " Item 1");

    let m = Ui::menu_layout(&refs, 12, &[(12, 7), (12, 3)]);
    assert_eq!((m.start, m.end), (7, 17));
    assert!(m.more_above && m.more_below);
    assert_eq!(m.rows[5].text.as_str(), ">Item 12");
    assert_eq!(m.rows[5].slider, Some((7, 28)));
    assert_eq!(m.rows[4].slider, None);

    let m = Ui::menu_layout(&refs, 19, &[]);
    assert_eq!((m.start, m.end), (10, 20));
    assert!(m.more_above && !m.more_below);

    let few = ["a", "b"];
    let m = Ui::menu_layout(&few, 1, &[]);
    assert_eq!((m.start, m.end), (0, 2));
    assert!(!m.more_above && !m.more_below);
}

#[test]
fn menu_rows_are_cut_to_the_width() {
    let long = "Model: deepseek/deepseek-chat-v3";
    let m = Ui::menu_layout(&[long], 0, &[]);
    assert_eq!(m.rows[0].text.as_str(), ">Model: deepseek/deepseek");
    assert_eq!(m.rows[0].text.len(), 25);
}

#[test]
fn draft_layout_positions() {
    let d = Ui::draft_layout("hi\nyo");
    let pos: Vec<(i32, i32, char)> = d.glyphs.iter().map(|g| (g.x, g.y, g.ch)).collect();
    assert_eq!(pos, vec![(2, 16, 'h'), (8, 16, 'i'), (2, 27, 'y'), (8, 27, 'o')]);
    assert_eq!(d.cursor, Some((14, 27)));

    let empty = Ui::draft_layout("");
    assert!(empty.glyphs.is_empty());
    assert_eq!(empty.cursor, Some((2, 16)));

    let row = Ui::draft_layout(&"x".repeat(27));
    assert_eq!(row.glyphs[26].x, 2);
    assert_eq!(row.glyphs[26].y, 27);
    assert_eq!(row.cursor, Some((8, 27)));
}

#[test]
fn draft_stops_below_the_last_row() {
    let d = Ui::draft_layout("1\n2\n3\n4\n5\n6\n7");
    assert_eq!(d.glyphs.len(), 6);
    assert_eq!(d.glyphs[5].y, 16 + 11 * 5);
    assert_eq!(d.cursor, None);
    let full = Ui::draft_layout("1\n2\n3\n4\n5\n6");
    assert_eq!(full.cursor, Some((8, 71)));
}

#[test]
fn status_bar_prompts() {
    let kb = Keyboard::new();
    let s = Ui::status_bar(&kb, "");
    assert_eq!(s.label, "STEP 1: tap a group");
    assert_eq!(s.tint, Tint::Accent);
    assert_eq!(s.right.as_str(), "s0");
    assert_eq!(s.right_x, 160 - 12 - 2);
    let s = Ui::status_bar(&kb, "SENDING");
    assert_eq!(s.label, "SENDING");
    assert_eq!(s.tint, Tint::Warn);
}

#[test]
fn compose_hint_without_suggestions() {
    let kb = Keyboard::new();
    assert_eq!(Ui::compose_hint(&kb).as_str(), "L = space");
}

#[test]
fn letter_cross_cells() {
    let cells = Ui::letter_cells("efgh");
    let got: Vec<(i32, i32, String)> =
        cells.iter().map(|c| (c.x, c.y, c.text.as_str().to_string())).collect();
    assert_eq!(
        got,
        vec![
            (68, 92, "W:e".to_string()),
            (4, 103, "A:f".to_string()),
            (68, 114, "S:g".to_string()),
            (120, 103, "D:h".to_string()),
        ]
    );
    assert_eq!(Ui::letter_cells("yz").len(), 2);
}

#[test]
fn guide_follows_the_keyboard_state() {
    let p = StaticPredictor::new(&["hello", "help"]);
    let mut kb = Keyboard::new();
    assert_eq!(Ui::guide(&kb), Guide::Compose);
    kb.process(KeyEvent::Tap(Button::A), &p);
    assert_eq!(Ui::guide(&kb), Guide::Letters("efgh"));
    let s = Ui::status_bar(&kb, "");
    assert_eq!(s.label, "STEP 2: pick the letter");
    kb.process(KeyEvent::Tap(Button::D), &p);
    assert_eq!(kb.text(), "h");
    assert_eq!(Ui::compose_hint(&kb).as_str(), "~ hello");
    assert_eq!(Ui::status_bar(&kb, "").right.as_str(), "s2");
    kb.process(KeyEvent::Hold(Button::L), &p);
    assert_eq!(Ui::guide(&kb), Guide::Actions);
    let s = Ui::status_bar(&kb, "");
    assert_eq!(s.label, "ACTION: pick one");
    assert_eq!(s.tint, Tint::Warn);
    kb.process(KeyEvent::Tap(Button::D), &p);
    assert_eq!(Ui::status_bar(&kb, "").right.as_str(), "CAPS s2");
}

#[test]
fn row_count_agrees_with_wrapping() {
    for body in ["", "hi", "a\n\nb", &"x".repeat(26), &"y".repeat(80), "line one\nline two is a long line of text\n"] {
        assert_eq!(Ui::wrapped_row_count(body).0, wrap(body).len(), "{body:?}");
    }
    // Rows hold 26 bytes: 26 two-byte characters make two rows, and a
    // character that does not fit the bytes left in a row is dropped.
    let accents = "é".repeat(26);
    assert_eq!(Ui::wrapped_row_count(&accents), (2, 10));
    assert_eq!(wrap(&accents).len(), 2);
    let body = format!("{}éé", "a".repeat(25));
    assert_eq!(Ui::wrapped_row_count(&body).0, 1);
    assert_eq!(wrap(&body).len(), 1);
    assert_eq!(Ui::wrapped_row_count("ab\ncd"), (2, 10));
}
