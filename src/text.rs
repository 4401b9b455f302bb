use vstd::prelude::*;
use crate::line_ending::{
    count_le, line_content, line_of, line_start, line_stop,
    lemma_count_le_take_full, lemma_line_bounds,
};
use crate::rope::{Rope, RopeCharIter};

verus! {

/// A cursor movement.
#[derive(Clone, Copy, Debug)]
pub enum Movement {
    Up,
    Down,
    Left,
    Right,
    LineStart,
    LineEnd,
    PageUp(usize),
    PageDown(usize),
}

/// Column of position `pos` within its line.
pub open spec fn col_of(s: Seq<char>, pos: int) -> int {
    pos - line_start(s, line_of(s, pos))
}

/// Position of column `col` on line `line`, both clamped: the line to the
/// last line, the column to the line's length.
pub open spec fn pos_at(s: Seq<char>, line: int, col: int) -> int {
    let l: nat = if line < 0 { 0 } else if line > count_le(s) { count_le(s) } else { line as nat };
    let n = line_stop(s, l) - line_start(s, l);
    line_start(s, l) + if col < n { col } else { n }
}

/// Position reached from `pos` by `mov`.
pub open spec fn step_target(s: Seq<char>, pos: int, mov: Movement) -> int {
    let l = line_of(s, pos) as int;
    let c = col_of(s, pos);
    match mov {
        Movement::Up => if l == 0 { pos } else { pos_at(s, l - 1, c) },
        Movement::Down => if l == count_le(s) { pos } else { pos_at(s, l + 1, c) },
        Movement::Left => if pos > 0 { pos - 1 } else { pos },
        Movement::Right => if pos < s.len() { pos + 1 } else { pos },
        Movement::LineStart => line_start(s, l as nat),
        Movement::LineEnd => line_stop(s, l as nat),
        Movement::PageUp(n) => pos_at(s, l - n, c),
        Movement::PageDown(n) => pos_at(s, l + n, c),
    }
}

/// Position set by `move_to(pos)`: `pos`, clamped to the end of the text.
pub open spec fn clamp_pos(s: Seq<char>, pos: int) -> int {
    if pos > s.len() { s.len() as int } else { pos }
}

/// Moving to a position twice is moving there once.
pub proof fn lemma_move_to_idempotent(s: Seq<char>, pos: int)
    ensures
        clamp_pos(s, clamp_pos(s, pos)) == clamp_pos(s, pos),
{
}

/// A step left undoes a step right taken before the end of the text.
pub proof fn lemma_left_undoes_right(s: Seq<char>, pos: int)
    requires
        0 <= pos < s.len(),
    ensures
        step_target(s, step_target(s, pos, Movement::Right), Movement::Left) == pos,
{
}

/// Deleting the character just inserted at `pos` gives back the text: the
/// character at `pos` after the insertion is `c`, and removing it restores `s`.
pub proof fn lemma_insert_delete_inverse(s: Seq<char>, pos: int, c: char)
    requires
        0 <= pos <= s.len(),
    ensures
        s.insert(pos, c)[pos] == c,
        s.insert(pos, c).remove(pos) == s,
{
    assert(s.insert(pos, c).remove(pos) =~= s);
}

/// A step up from the first line leaves the cursor where it is.
pub proof fn lemma_up_on_first_line(s: Seq<char>, pos: int)
    requires
        line_of(s, pos) == 0,
    ensures
        step_target(s, pos, Movement::Up) == pos,
{
}

/// The characters of a text or of one of its lines, read one at a time.
pub struct CharIter<'a> {
    inner: RopeCharIter<'a>,
}

impl<'a> CharIter<'a> {
    /// The characters not handed out yet.
    pub closed spec fn rest(&self) -> Seq<char> {
        self.inner.rest()
    }

    pub closed spec fn wf(&self) -> bool {
        self.inner.wf()
    }

    /// The next character, or `None` at the end.
    pub fn next(&mut self) -> (r: Option<char>)
        requires
            old(self).wf(),
        ensures
            final(self).wf(),
            old(self).rest().len() == 0 ==> r == None::<char> && final(self).rest().len() == 0,
            old(self).rest().len() > 0 ==> r == Some(old(self).rest()[0]) && final(self).rest()
                == old(self).rest().drop_first(),
    {
        self.inner.next()
    }
}

/// What an editor loop needs of a text buffer with a cursor.
pub trait Editable {
    /// The text held.
    spec fn content(&self) -> Seq<char>;

    /// The cursor, an offset into the text.
    spec fn cursor(&self) -> int;

    /// The buffer is well formed and the cursor lies within the text.
    spec fn inv(&self) -> bool;

    /// The cursor of a valid buffer lies within its text.
    proof fn lemma_cursor_in_text(&self)
        requires
            self.inv(),
        ensures
            0 <= self.cursor() <= self.content().len(),
    ;

    /// Moves the cursor by one movement.
    fn step(&mut self, mov: Movement)
        requires
            old(self).inv(),
        ensures
            final(self).inv(),
            final(self).content() == old(self).content(),
            final(self).cursor() == step_target(old(self).content(), old(self).cursor(), mov),
    ;

    /// Puts the cursor at `pos`, or at the end of the text if `pos` is past it.
    fn move_to(&mut self, pos: usize)
        requires
            old(self).inv(),
        ensures
            final(self).inv(),
            final(self).content() == old(self).content(),
            final(self).cursor() == clamp_pos(old(self).content(), pos as int),
    ;

    /// Puts the cursor at column `col` of line `line`, both clamped.
    fn move_at(&mut self, line: usize, col: usize)
        requires
            old(self).inv(),
        ensures
            final(self).inv(),
            final(self).content() == old(self).content(),
            final(self).cursor() == pos_at(old(self).content(), line as int, col as int),
    ;

    /// Inserts `c` before the cursor; the cursor moves past it.
    fn insert(&mut self, c: char)
        requires
            old(self).inv(),
            old(self).content().len() + 1 < usize::MAX,
        ensures
            final(self).inv(),
            final(self).content() == old(self).content().insert(old(self).cursor(), c),
            final(self).cursor() == old(self).cursor() + 1,
    ;

    /// Inserts `c` after the cursor; the cursor stays.
    fn insert_forward(&mut self, c: char)
        requires
            old(self).inv(),
            old(self).content().len() + 1 < usize::MAX,
        ensures
            final(self).inv(),
            final(self).content() == old(self).content().insert(old(self).cursor(), c),
            final(self).cursor() == old(self).cursor(),
    ;

    /// Removes and returns the character before the cursor, if any.
    fn delete(&mut self) -> (r: Option<char>)
        requires
            old(self).inv(),
        ensures
            final(self).inv(),
            old(self).cursor() == 0 ==> r == None::<char>
                && final(self).content() == old(self).content()
                && final(self).cursor() == 0,
            old(self).cursor() > 0 ==> r == Some(old(self).content()[old(self).cursor() - 1])
                && final(self).content() == old(self).content().remove(old(self).cursor() - 1)
                && final(self).cursor() == old(self).cursor() - 1,
    ;

    /// Removes and returns the character after the cursor, if any.
    fn delete_forward(&mut self) -> (r: Option<char>)
        requires
            old(self).inv(),
        ensures
            final(self).inv(),
            final(self).cursor() == old(self).cursor(),
            old(self).cursor() == old(self).content().len() ==> r == None::<char>
                && final(self).content() == old(self).content(),
            old(self).cursor() < old(self).content().len()
                ==> r == Some(old(self).content()[old(self).cursor()])
                && final(self).content() == old(self).content().remove(old(self).cursor()),
    ;

    fn pos(&self) -> (r: usize)
        requires
            self.inv(),
        ensures
            r == self.cursor(),
            r <= self.content().len(),
    ;

    /// Line of the cursor.
    fn line(&self) -> (r: usize)
        requires
            self.inv(),
        ensures
            r == line_of(self.content(), self.cursor()),
    ;

    /// Column of the cursor.
    fn col(&self) -> (r: usize)
        requires
            self.inv(),
        ensures
            r == col_of(self.content(), self.cursor()),
    ;

    fn line_count(&self) -> (r: usize)
        requires
            self.inv(),
        ensures
            r == count_le(self.content()) + 1,
    ;

    fn len(&self) -> (r: usize)
        requires
            self.inv(),
        ensures
            r == self.content().len(),
    ;

    /// Every character of the text.
    fn iter(&self) -> (r: CharIter<'_>)
        requires
            self.inv(),
        ensures
            r.wf(),
            r.rest() == self.content(),
    ;

    /// The characters of line `line`, its line ending excluded.
    fn iter_line(&self, line: usize) -> (r: CharIter<'_>)
        requires
            self.inv(),
            line <= count_le(self.content()),
        ensures
            r.wf(),
            r.rest() == line_content(self.content(), line as nat),
    ;

    /// Offset of the first character of line `line`.
    fn line_index_to_char_index(&self, line: usize) -> (r: usize)
        requires
            self.inv(),
            line <= count_le(self.content()),
        ensures
            r == line_start(self.content(), line as nat),
    ;
}

/// At the cursor of a valid buffer, `insert(c)` then `delete()` (or
/// `insert_forward(c)` then `delete_forward()`) removes `c` again and gives
/// back the text: the character inserted lies at the cursor, and removing
/// that character restores the text.
pub proof fn lemma_buffer_insert_delete<T: Editable>(t: &T, c: char)
    requires
        t.inv(),
    ensures
        t.content().insert(t.cursor(), c)[t.cursor()] == c,
        t.content().insert(t.cursor(), c).remove(t.cursor()) == t.content(),
{
    t.lemma_cursor_in_text();
    lemma_insert_delete_inverse(t.content(), t.cursor(), c);
}

/// A rope with a cursor.
pub struct Text {
    rope: Rope,
    pos: usize,
}

impl Text {
    /// An empty text, cursor at 0.
    pub fn new() -> (r: Text)
        ensures
            r.inv(),
            r.content() == Seq::<char>::empty(),
            r.cursor() == 0,
    {
        Text { rope: Rope::new(), pos: 0 }
    }

    fn cur_line(&self) -> (r: usize)
        requires
            self.inv(),
        ensures
            r == line_of(self.content(), self.cursor()),
            r <= count_le(self.content()),
            line_start(self.content(), r as nat) <= self.cursor(),
    {
        proof {
            crate::line_ending::lemma_line_start_before(self.rope@, self.pos as int);
            self.rope.lemma_bounds();
            lemma_count_le_take_full(self.rope@);
            crate::line_ending::lemma_count_le_monotonic(
                self.rope@,
                self.pos as int,
                self.rope@.len() as int,
            );
        }
        if self.pos == self.rope.len() {
            self.rope.line_ending_count()
        } else {
            self.rope.char_index_to_line_index(self.pos)
        }
    }

    fn place(&mut self, line: usize, col: usize)
        requires
            old(self).inv(),
        ensures
            final(self).inv(),
            final(self).content() == old(self).content(),
            final(self).cursor() == pos_at(old(self).content(), line as int, col as int),
    {
        let count = self.rope.line_ending_count();
        let l = if line > count { count } else { line };
        proof { lemma_line_bounds(self.rope@, l as nat); }
        let a = self.rope.begining_of_line(l);
        let b = self.rope.line_stop_of(l);
        let n = b - a;
        self.pos = a + if col < n { col } else { n };
    }
}

impl Editable for Text {
    closed spec fn content(&self) -> Seq<char> {
        self.rope@
    }

    closed spec fn cursor(&self) -> int {
        self.pos as int
    }

    closed spec fn inv(&self) -> bool {
        self.rope.wf() && self.pos <= self.rope@.len()
    }

    proof fn lemma_cursor_in_text(&self) {
    }

    fn step(&mut self, mov: Movement) {
        let l = self.cur_line();
        proof { lemma_line_bounds(self.rope@, l as nat); }
        let start = self.rope.begining_of_line(l);
        let c = self.pos - start;
        match mov {
            Movement::Up => {
                if l > 0 {
                    self.place(l - 1, c);
                }
            },
            Movement::Down => {
                if l < self.rope.line_ending_count() {
                    self.place(l + 1, c);
                }
            },
            Movement::Left => {
                if self.pos > 0 {
                    self.pos = self.pos - 1;
                }
            },
            Movement::Right => {
                if self.pos < self.rope.len() {
                    self.pos = self.pos + 1;
                }
            },
            Movement::LineStart => {
                self.pos = start;
            },
            Movement::LineEnd => {
                self.pos = self.rope.line_stop_of(l);
            },
            Movement::PageUp(n) => {
                let target = if l >= n { l - n } else { 0 };
                self.place(target, c);
            },
            Movement::PageDown(n) => {
                let count = self.rope.line_ending_count();
                let target = if n >= count - l { count } else { l + n };
                self.place(target, c);
            },
        }
    }

    fn move_to(&mut self, pos: usize) {
        let n = self.rope.len();
        self.pos = if pos > n { n } else { pos };
    }

    fn move_at(&mut self, line: usize, col: usize) {
        self.place(line, col);
    }

    fn insert(&mut self, c: char) {
        self.rope.insert(self.pos, c);
        self.pos = self.pos + 1;
    }

    fn insert_forward(&mut self, c: char) {
        self.rope.insert(self.pos, c);
    }

    fn delete(&mut self) -> (r: Option<char>) {
        if self.pos == 0 {
            None
        } else {
            let c = self.rope.remove(self.pos - 1);
            self.pos = self.pos - 1;
            Some(c)
        }
    }

    fn delete_forward(&mut self) -> (r: Option<char>) {
        if self.pos == self.rope.len() {
            None
        } else {
            Some(self.rope.remove(self.pos))
        }
    }

    fn pos(&self) -> (r: usize) {
        self.pos
    }

    fn line(&self) -> (r: usize) {
        self.cur_line()
    }

    fn col(&self) -> (r: usize) {
        let l = self.cur_line();
        proof { lemma_line_bounds(self.rope@, l as nat); }
        let start = self.rope.begining_of_line(l);
        self.pos - start
    }

    fn line_count(&self) -> (r: usize) {
        self.rope.line_count()
    }

    fn len(&self) -> (r: usize) {
        self.rope.len()
    }

    fn iter(&self) -> (r: CharIter<'_>) {
        CharIter { inner: self.rope.chars() }
    }

    fn iter_line(&self, line: usize) -> (r: CharIter<'_>) {
        CharIter { inner: self.rope.line(line) }
    }

    fn line_index_to_char_index(&self, line: usize) -> (r: usize) {
        self.rope.begining_of_line(line)
    }
}

} // verus!
