use phire::input::{FrameKeys, InlineInputBox, TouchPhase};

#[test]
fn typing_and_backspace() {
    let mut b = InlineInputBox::new();
    assert!(!b.is_active());
    b.activate("ab", false);
    assert!(b.is_active());
    assert_eq!(b.cursor(), 2);
    b.type_char('c');
    assert_eq!(b.text(), "abc");
    b.backspace();
    assert_eq!(b.text(), "ab");
    assert_eq!(b.cursor(), 2);
    b.move_left(false);
    b.delete_forward();
    assert_eq!(b.text(), "a");
    assert_eq!(b.confirm(), "a");
    assert!(!b.is_active());
}

#[test]
fn selection_cut_and_paste() {
    let mut b = InlineInputBox::new();
    b.activate("hello world", false);
    b.move_home(false);
    for _ in 0..5 {
        b.move_right(true);
    }
    assert_eq!(b.selection_range(), Some((0, 5)));
    assert_eq!(b.selected_text().as_deref(), Some("hello"));
    assert_eq!(b.cut().as_deref(), Some("hello"));
    assert_eq!(b.text(), " world");
    b.paste("bye");
    assert_eq!(b.text(), "bye world");
    assert_eq!(b.text_before(), "bye");
    b.select_all();
    assert!(b.delete_selection());
    assert_eq!(b.text(), "");
    assert!(!b.delete_selection());
}

#[test]
fn multiline_moves_keep_the_column() {
    let mut b = InlineInputBox::new();
    b.activate("abcd\nxy\nlmnop", true);
    assert!(b.is_multiline());
    b.move_up(false);
    assert_eq!(b.cursor(), 7);
    b.move_up(false);
    assert_eq!(b.cursor(), 2);
    b.move_home(false);
    b.move_right(false);
    assert!(b.can_move_down());
    b.move_down(false);
    assert_eq!(b.cursor(), 6);
    b.enter();
    assert_eq!(b.text(), "abcd\nx\ny\nlmnop");
}

#[test]
fn enter_in_a_single_line_box_confirms() {
    let mut b = InlineInputBox::new();
    b.activate("x", false);
    b.enter();
    assert!(!b.is_active());
}

#[test]
fn cancel_keeps_the_text_out() {
    let mut b = InlineInputBox::new();
    b.activate("x", false);
    b.cancel();
    assert!(!b.is_active());
}

#[test]
fn touches_place_the_cursor() {
    let mut b = InlineInputBox::new();
    b.activate("abcdef", false);
    assert!(!b.touch(TouchPhase::Started, true, 2));
    assert_eq!(b.cursor(), 2);
    assert!(!b.touch(TouchPhase::Moved, true, 40));
    assert_eq!(b.cursor(), 6);
    assert_eq!(b.selection_range(), Some((2, 6)));
    assert!(b.touch(TouchPhase::Started, false, 0));
    assert_eq!(b.cursor(), 6);
}

#[test]
fn cut_then_paste_restores_the_text() {
    let mut b = InlineInputBox::new();
    b.activate("abcdef", false);
    b.move_left(false);
    b.move_left(true);
    b.move_left(true);
    let t = b.cut().unwrap();
    assert_eq!(t, "de");
    assert_eq!(b.text(), "abcf");
    b.paste(&t);
    assert_eq!(b.text(), "abcdef");
    assert_eq!(b.cursor(), 5);
}

#[test]
fn right_then_left_returns_and_drops_the_selection() {
    let mut b = InlineInputBox::new();
    b.activate("abc", false);
    b.move_home(false);
    b.move_right(true);
    b.move_right(false);
    b.move_left(false);
    assert_eq!(b.cursor(), 1);
    assert_eq!(b.selection_range(), None);
}

fn no_keys() -> FrameKeys {
    FrameKeys {
        right: false,
        left: false,
        up: false,
        down: false,
        home: false,
        end: false,
        shift: false,
        ctrl: false,
        copy: false,
        cut: false,
        paste: false,
        select_all: false,
        backspace: false,
        delete: false,
        enter: false,
        escape: false,
    }
}

#[test]
fn a_frame_of_keys() {
    let mut b = InlineInputBox::new();
    b.activate("hello", false);
    let keys = FrameKeys { left: true, shift: true, ctrl: true, cut: true, ..no_keys() };
    assert!(b.frame_ok(&keys));
    assert_eq!(b.update(&keys, &['!'], None).as_deref(), Some("o"));
    assert_eq!(b.text(), "hell!");
    let keys = FrameKeys { ctrl: true, select_all: true, paste: true, ..no_keys() };
    assert_eq!(b.update(&keys, &[], Some("XY")), None);
    assert_eq!(b.text(), "hell!XY");
    assert_eq!(b.selection_range(), Some((0, 7)));
    let keys = FrameKeys { escape: true, ..no_keys() };
    b.update(&keys, &['z'], None);
    assert!(!b.is_active());
    assert_eq!(b.text(), "");
    assert_eq!(b.cursor(), 0);
}
