use vstd::prelude::*;

verus! {

/// The code point that terminates a line.
pub open spec fn is_le(c: char) -> bool {
    c == '\n'
}

/// Number of line endings in `s`.
pub open spec fn count_le(s: Seq<char>) -> nat
    decreases s.len(),
{
    if s.len() == 0 {
        0
    } else {
        count_le(s.drop_last()) + if is_le(s.last()) { 1nat } else { 0nat }
    }
}

/// Line index of the character at `i`: the line endings strictly before it.
pub open spec fn line_of(s: Seq<char>, i: int) -> nat {
    count_le(s.take(i))
}

/// `i` is the offset at which line `l` of `s` begins.
pub open spec fn is_line_start(s: Seq<char>, l: nat, i: int) -> bool {
    0 <= i <= s.len() && count_le(s.take(i)) == l && (i == 0 || is_le(s[i - 1]))
}

/// Offset of the first character of line `l` (meaningful for `l <= count_le(s)`).
pub open spec fn line_start(s: Seq<char>, l: nat) -> int {
    choose|i: int| is_line_start(s, l, i)
}

/// Offset one past the last character of line `l`, its line ending excluded.
pub open spec fn line_stop(s: Seq<char>, l: nat) -> int {
    if l >= count_le(s) {
        s.len() as int
    } else {
        line_start(s, l + 1) - 1
    }
}

/// Offset of the last position of line `l`: its line ending, or the last
/// character of the text for the last line.
pub open spec fn line_end(s: Seq<char>, l: nat) -> int {
    if l >= count_le(s) {
        s.len() - 1
    } else {
        line_start(s, l + 1) - 1
    }
}

/// Characters of line `l`, its line ending excluded.
pub open spec fn line_content(s: Seq<char>, l: nat) -> Seq<char> {
    s.subrange(line_start(s, l), line_stop(s, l))
}

pub proof fn lemma_count_le_append(a: Seq<char>, b: Seq<char>)
    ensures
        count_le(a + b) == count_le(a) + count_le(b),
    decreases b.len(),
{
    if b.len() == 0 {
        assert(a + b =~= a);
    } else {
        assert((a + b).drop_last() =~= a + b.drop_last());
        lemma_count_le_append(a, b.drop_last());
    }
}

pub proof fn lemma_count_le_bound(s: Seq<char>)
    ensures
        count_le(s) <= s.len(),
    decreases s.len(),
{
    if s.len() > 0 {
        lemma_count_le_bound(s.drop_last());
    }
}

pub proof fn lemma_count_le_step(s: Seq<char>, j: int)
    requires
        0 < j <= s.len(),
    ensures
        count_le(s.take(j)) == count_le(s.take(j - 1)) + if is_le(s[j - 1]) { 1nat } else { 0nat },
{
    assert(s.take(j).drop_last() =~= s.take(j - 1));
}

pub proof fn lemma_count_le_take_full(s: Seq<char>)
    ensures
        count_le(s.take(s.len() as int)) == count_le(s),
{
    assert(s.take(s.len() as int) =~= s);
}

/// The line index of a position never decreases as the position grows.
pub proof fn lemma_count_le_monotonic(s: Seq<char>, i: int, j: int)
    requires
        0 <= i <= j <= s.len(),
    ensures
        count_le(s.take(i)) <= count_le(s.take(j)),
    decreases j - i,
{
    if i < j {
        lemma_count_le_step(s, j);
        lemma_count_le_monotonic(s, i, j - 1);
    }
}

pub proof fn lemma_line_start_unique(s: Seq<char>, l: nat, i: int)
    requires
        is_line_start(s, l, i),
    ensures
        line_start(s, l) == i,
{
    let j = line_start(s, l);
    assert(is_line_start(s, l, j));
    if i < j {
        lemma_count_le_step(s, j);
        lemma_count_le_monotonic(s, i, j - 1);
    } else if j < i {
        lemma_count_le_step(s, i);
        lemma_count_le_monotonic(s, j, i - 1);
    }
}

pub proof fn lemma_line_start_exists(s: Seq<char>, l: nat)
    requires
        l <= count_le(s),
    ensures
        is_line_start(s, l, line_start(s, l)),
    decreases s.len(),
{
    if s.len() == 0 {
        assert(s.take(0) =~= s);
        assert(is_line_start(s, l, 0));
    } else {
        let t = s.drop_last();
        if l <= count_le(t) {
            lemma_line_start_exists(t, l);
            let i = line_start(t, l);
            assert(s.take(i) =~= t.take(i));
            assert(is_line_start(s, l, i));
        } else {
            lemma_count_le_take_full(s);
            assert(is_line_start(s, l, s.len() as int));
        }
    }
}

pub proof fn lemma_count_le_single(c: char)
    ensures
        count_le(seq![c]) == if is_le(c) { 1nat } else { 0nat },
{
    assert(seq![c].drop_last() =~= Seq::<char>::empty());
    assert(count_le(Seq::<char>::empty()) == 0);
    assert(seq![c].last() == c);
}

pub proof fn lemma_count_le_insert(s: Seq<char>, i: int, c: char)
    requires
        0 <= i <= s.len(),
    ensures
        count_le(s.insert(i, c)) == count_le(s) + if is_le(c) { 1nat } else { 0nat },
{
    assert(s.insert(i, c) =~= s.take(i) + (seq![c] + s.skip(i)));
    assert(s =~= s.take(i) + s.skip(i));
    lemma_count_le_append(s.take(i), seq![c] + s.skip(i));
    lemma_count_le_append(seq![c], s.skip(i));
    lemma_count_le_append(s.take(i), s.skip(i));
    lemma_count_le_single(c);
}

pub proof fn lemma_count_le_remove(s: Seq<char>, i: int)
    requires
        0 <= i < s.len(),
    ensures
        count_le(s) == count_le(s.remove(i)) + if is_le(s[i]) { 1nat } else { 0nat },
{
    lemma_count_le_insert(s.remove(i), i, s[i]);
    assert(s.remove(i).insert(i, s[i]) =~= s);
}

/// Line `l` starts before or where it stops, and, but for the last line,
/// is followed by its line ending and then by the start of line `l + 1`.
pub proof fn lemma_line_bounds(s: Seq<char>, l: nat)
    requires
        l <= count_le(s),
    ensures
        is_line_start(s, l, line_start(s, l)),
        0 <= line_start(s, l) <= line_stop(s, l) <= s.len(),
        l < count_le(s) ==> line_start(s, l + 1) == line_stop(s, l) + 1,
        l < count_le(s) ==> is_le(s[line_stop(s, l)]),
{
    lemma_line_start_exists(s, l);
    let a = line_start(s, l);
    if l < count_le(s) {
        lemma_line_start_exists(s, l + 1);
        let n = line_start(s, l + 1);
        assert(s.take(0).len() == 0);
        assert(n > 0);
        lemma_count_le_step(s, n);
        if n - 1 < a {
            lemma_count_le_step(s, a as int);
            lemma_count_le_monotonic(s, n - 1, a - 1);
        }
    }
}

/// A position lies on or after the start of its own line.
pub proof fn lemma_line_start_before(s: Seq<char>, pos: int)
    requires
        0 <= pos <= s.len(),
    ensures
        line_of(s, pos) <= count_le(s),
        line_start(s, line_of(s, pos)) <= pos,
{
    lemma_count_le_monotonic(s, pos, s.len() as int);
    lemma_count_le_take_full(s);
    let l = line_of(s, pos);
    lemma_line_start_exists(s, l);
    let a = line_start(s, l);
    if a > pos {
        lemma_count_le_step(s, a);
        lemma_count_le_monotonic(s, pos, a - 1);
    }
}

/// The first `n` lines of `s`, joined by line endings.
pub open spec fn joined_lines(s: Seq<char>, n: nat) -> Seq<char>
    decreases n,
{
    if n <= 1 {
        line_content(s, 0)
    } else {
        joined_lines(s, (n - 1) as nat) + seq!['\n'] + line_content(s, (n - 1) as nat)
    }
}

pub proof fn lemma_joined_prefix(s: Seq<char>, n: nat)
    requires
        1 <= n <= count_le(s) + 1,
    ensures
        joined_lines(s, n) == s.take(line_stop(s, (n - 1) as nat)),
    decreases n,
{
    lemma_line_bounds(s, (n - 1) as nat);
    if n == 1 {
        assert(s.take(0).len() == 0);
        assert(is_line_start(s, 0, 0));
        lemma_line_start_unique(s, 0, 0);
        assert(line_content(s, 0) =~= s.take(line_stop(s, 0)));
    } else {
        lemma_joined_prefix(s, (n - 1) as nat);
        lemma_line_bounds(s, (n - 2) as nat);
        let k = line_stop(s, (n - 2) as nat);
        assert(s[k] == '\n');
        assert(s.take(k) + seq!['\n'] + line_content(s, (n - 1) as nat) =~= s.take(
            line_stop(s, (n - 1) as nat),
        ));
    }
}

/// Whether `c` terminates a line.
pub fn is_line_ending(c: char) -> (r: bool)
    ensures
        r == is_le(c),
{
    match c {
        '\n' => true,
        _ => false,
    }
}

} // verus!
