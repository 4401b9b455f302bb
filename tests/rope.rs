use ropedit::{is_line_ending, Rope, RopeChunkIter};

fn rope_of(s: &str) -> Rope {
    let mut r = Rope::new();
    for (i, c) in s.chars().enumerate() {
        r.insert(i, c);
    }
    r
}

fn line_string(r: &Rope, l: usize) -> String {
    let mut it = r.line(l);
    let mut out = String::new();
    while let Some(c) = it.next() {
        out.push(c);
    }
    out
}

fn text_of(r: &Rope) -> String {
    let mut it = r.chars();
    let mut out = String::new();
    while let Some(c) = it.next() {
        out.push(c);
    }
    out
}

#[test]
fn new_rope_is_empty() {
    let r = Rope::new();
    assert_eq!(r.len(), 0);
    assert_eq!(r.line_count(), 1);
    assert_eq!(r.begining_of_line(0), 0);
    assert_eq!(line_string(&r, 0), "");
}

#[test]
fn trailing_line_ending_scenario() {
    let r = rope_of("ab\ncd\n");
    assert_eq!(r.line_count(), 3);
    assert_eq!(r.begining_of_line(1), 3);
    assert_eq!(r.ending_of_line(0), 2);
    assert_eq!(r.begining_of_line(2), 6);
    assert_eq!(line_string(&r, 0), "ab");
    assert_eq!(line_string(&r, 1), "cd");
    assert_eq!(line_string(&r, 2), "");
}

#[test]
fn ending_of_last_line() {
    let r = rope_of("ab\ncde");
    assert_eq!(r.ending_of_line(1), 5);
    assert_eq!(r.ending_of_line(0), 2);
}

#[test]
fn char_index_to_line_index_non_decreasing() {
    let r = rope_of("a\n\nbc\nd");
    let expected = [0, 0, 1, 2, 2, 2, 3];
    let mut prev = 0;
    for i in 0..r.len() {
        let l = r.char_index_to_line_index(i);
        assert_eq!(l, expected[i]);
        assert!(l >= prev);
        prev = l;
    }
}

#[test]
fn line_begin_end_adjacent() {
    let r = rope_of("ab\n\ncde\nf");
    for l in 0..r.line_count() {
        let b = r.begining_of_line(l);
        let e = r.ending_of_line(l);
        if l + 1 < r.line_count() {
            assert_eq!(r.begining_of_line(l + 1), e + 1);
        }
        if !(l + 1 == r.line_count() && b == r.len()) {
            assert!(b <= e);
        }
    }
}

#[test]
fn lines_join_back_to_text() {
    let src = "first\nsecond\n\nlast";
    let r = rope_of(src);
    let mut joined = String::new();
    for l in 0..r.line_count() {
        if l > 0 {
            joined.push('\n');
        }
        joined.push_str(&line_string(&r, l));
    }
    assert_eq!(joined, src);
}

#[test]
fn large_rope_splits_leaves() {
    let mut src = String::new();
    for i in 0..3000 {
        src.push(if i % 10 == 9 { '\n' } else { 'x' });
    }
    let r = rope_of(&src);
    assert_eq!(r.len(), 3000);
    assert_eq!(r.line_count(), 301);
    assert_eq!(r.char_index_to_line_index(2999), 299);
    assert_eq!(r.char_index_to_line_index(1500), 150);
    assert_eq!(r.begining_of_line(150), 1500);
    assert_eq!(r.ending_of_line(150), 1509);
    assert_eq!(line_string(&r, 200), "xxxxxxxxx");
    assert_eq!(text_of(&r), src);
}

#[test]
fn remove_returns_character() {
    let mut r = rope_of("a\nb");
    assert_eq!(r.remove(1), '\n');
    assert_eq!(r.line_count(), 1);
    assert_eq!(r.len(), 2);
    assert_eq!(text_of(&r), "ab");
}

#[test]
fn remove_across_leaves() {
    let mut src = String::new();
    for i in 0..2100 {
        src.push(if i % 7 == 0 { '\n' } else { 'y' });
    }
    let mut r = rope_of(&src);
    let mut expected: Vec<char> = src.chars().collect();
    while r.len() > 0 {
        let i = r.len() / 3;
        assert_eq!(r.remove(i), expected.remove(i));
    }
    assert_eq!(r.line_count(), 1);
    assert_eq!(text_of(&r), "");
}

#[test]
fn chunk_iter_from_char_index() {
    let r = rope_of("hello\nworld");
    let (mut it, off) = RopeChunkIter::from_char_index(&r, 4);
    let mut all: Vec<char> = Vec::new();
    while let Some(chunk) = it.next() {
        all.extend(chunk.iter());
    }
    let rest: String = all[off..].iter().collect();
    assert_eq!(rest, "o\nworld");
}

#[test]
fn classifier() {
    assert!(is_line_ending('\n'));
    assert!(!is_line_ending('\r'));
    assert!(!is_line_ending('a'));
}

#[test]
fn to_vec_gives_every_character() {
    let src = "one\ntwo\nthree";
    let r = rope_of(src);
    let v: String = r.to_vec().into_iter().collect();
    assert_eq!(v, src);
}

#[test]
fn many_inserts_at_front_keep_text() {
    let mut r = Rope::new();
    let mut expected: Vec<char> = Vec::new();
    for i in 0..5000usize {
        let c = if i % 13 == 0 { '\n' } else { (b'a' + (i % 26) as u8) as char };
        r.insert(0, c);
        expected.insert(0, c);
    }
    assert_eq!(r.to_vec(), expected);
    let lines = expected.iter().filter(|c| **c == '\n').count();
    assert_eq!(r.line_count(), lines + 1);
    let mut shrink = r;
    for _ in 0..4000 {
        let i = shrink.len() / 2;
        assert_eq!(shrink.remove(i), expected.remove(i));
    }
    assert_eq!(shrink.to_vec(), expected);
}

#[test]
fn chunk_iter_starts_in_leaf_holding_index() {
    let mut src = String::new();
    for i in 0..3000 {
        src.push((b'a' + (i % 26) as u8) as char);
    }
    let r = rope_of(&src);
    let chars: Vec<char> = src.chars().collect();
    for index in [0usize, 1023, 1500, 2999] {
        let (mut it, off) = RopeChunkIter::from_char_index(&r, index);
        let first = it.next().unwrap();
        assert!(off < first.len());
        assert_eq!(first[off], chars[index]);
        let mut all: Vec<char> = first[off..].to_vec();
        while let Some(chunk) = it.next() {
            assert!(!chunk.is_empty());
            all.extend(chunk.iter());
        }
        assert_eq!(all, chars[index..].to_vec());
        assert!(it.next().is_none());
        assert!(it.next().is_none());
    }
}
