use ropedit::{CharIter, Editable, Movement, Text};

fn text_of(s: &str) -> Text {
    let mut t = Text::new();
    for c in s.chars() {
        t.insert(c);
    }
    t
}

fn collect(mut it: CharIter) -> String {
    let mut out = String::new();
    while let Some(c) = it.next() {
        out.push(c);
    }
    out
}

#[test]
fn move_at_clamps_line_and_column() {
    let mut t = text_of("ab\ncde");
    t.move_at(5, 100);
    assert_eq!(t.line(), 1);
    assert_eq!(t.col(), 3);
    assert_eq!(t.pos(), 6);
    t.move_at(0, 100);
    assert_eq!(t.pos(), 2);
    t.move_at(1, 1);
    assert_eq!(t.pos(), 4);
}

#[test]
fn move_to_twice() {
    let mut t = text_of("hello");
    t.move_to(3);
    assert_eq!(t.pos(), 3);
    t.move_to(3);
    assert_eq!(t.pos(), 3);
    t.move_to(99);
    assert_eq!(t.pos(), 5);
    t.move_to(99);
    assert_eq!(t.pos(), 5);
}

#[test]
fn left_after_right() {
    let mut t = text_of("ab\nc");
    t.move_to(1);
    t.step(Movement::Right);
    assert_eq!(t.pos(), 2);
    t.step(Movement::Left);
    assert_eq!(t.pos(), 1);
    t.move_to(4);
    t.step(Movement::Right);
    assert_eq!(t.pos(), 4);
    t.move_to(0);
    t.step(Movement::Left);
    assert_eq!(t.pos(), 0);
}

#[test]
fn insert_then_delete() {
    let mut t = text_of("abc");
    t.move_to(1);
    t.insert('x');
    assert_eq!(t.pos(), 2);
    assert_eq!(collect(t.iter()), "axbc");
    assert_eq!(t.delete(), Some('x'));
    assert_eq!(t.pos(), 1);
    assert_eq!(collect(t.iter()), "abc");
    assert_eq!(t.len(), 3);
}

#[test]
fn insert_forward_then_delete_forward() {
    let mut t = text_of("abc");
    t.move_to(2);
    t.insert_forward('\n');
    assert_eq!(t.pos(), 2);
    assert_eq!(t.line_count(), 2);
    assert_eq!(collect(t.iter()), "ab\nc");
    assert_eq!(t.delete_forward(), Some('\n'));
    assert_eq!(t.line_count(), 1);
    assert_eq!(collect(t.iter()), "abc");
}

#[test]
fn delete_at_start_and_end() {
    let mut t = text_of("ab");
    t.move_to(0);
    assert_eq!(t.delete(), None);
    assert_eq!(t.pos(), 0);
    assert_eq!(collect(t.iter()), "ab");
    t.move_to(2);
    assert_eq!(t.delete_forward(), None);
    assert_eq!(collect(t.iter()), "ab");
    let mut e = Text::new();
    assert_eq!(e.delete(), None);
    assert_eq!(e.delete_forward(), None);
}

#[test]
fn up_on_first_line() {
    let mut t = text_of("abc\nde");
    t.move_to(2);
    t.step(Movement::Up);
    assert_eq!(t.pos(), 2);
}

#[test]
fn up_and_down_keep_column() {
    let mut t = text_of("abcd\nx\nfghij");
    t.move_at(0, 3);
    t.step(Movement::Down);
    assert_eq!((t.line(), t.col()), (1, 1));
    t.step(Movement::Down);
    assert_eq!((t.line(), t.col()), (2, 1));
    t.step(Movement::Down);
    assert_eq!((t.line(), t.col()), (2, 1));
    t.move_at(2, 4);
    t.step(Movement::Up);
    assert_eq!((t.line(), t.col()), (1, 1));
    t.step(Movement::Up);
    assert_eq!((t.line(), t.col()), (0, 1));
}

#[test]
fn line_start_and_end() {
    let mut t = text_of("ab\ncdef\ng");
    t.move_at(1, 2);
    t.step(Movement::LineEnd);
    assert_eq!(t.pos(), 7);
    t.step(Movement::LineStart);
    assert_eq!(t.pos(), 3);
    assert_eq!(t.col(), 0);
}

#[test]
fn page_up_and_down() {
    let mut t = text_of("a\nbb\nccc\ndddd\neeeee");
    t.move_at(1, 2);
    t.step(Movement::PageDown(2));
    assert_eq!((t.line(), t.col()), (3, 2));
    t.step(Movement::PageDown(10));
    assert_eq!((t.line(), t.col()), (4, 2));
    t.step(Movement::PageUp(2));
    assert_eq!((t.line(), t.col()), (2, 2));
    t.step(Movement::PageUp(10));
    assert_eq!((t.line(), t.col()), (0, 1));
}

#[test]
fn buffer_queries_on_trailing_line_ending() {
    let t = text_of("ab\ncd\n");
    assert_eq!(t.line_count(), 3);
    assert_eq!(t.line_index_to_char_index(1), 3);
    assert_eq!(t.line_index_to_char_index(2), 6);
    assert_eq!(t.line(), 2);
    assert_eq!(t.col(), 0);
    assert_eq!(collect(t.iter_line(1)), "cd");
    assert_eq!(collect(t.iter_line(2)), "");
}

#[test]
fn insert_delete_anywhere_restores_lines() {
    let mut t = text_of("ab\ncd\nef");
    for p in 0..=t.len() {
        t.move_to(p);
        let before = collect(t.iter());
        let lines = t.line_count();
        t.insert('\n');
        assert_eq!(t.delete(), Some('\n'));
        assert_eq!(t.pos(), p);
        t.insert_forward('z');
        assert_eq!(t.delete_forward(), Some('z'));
        assert_eq!(t.pos(), p);
        assert_eq!(collect(t.iter()), before);
        assert_eq!(t.line_count(), lines);
    }
}
