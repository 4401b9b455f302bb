use vstd::prelude::*;
use vstd::seq_lib::lemma_flatten_concat;
use crate::line_ending::{
    joined_lines, lemma_joined_prefix, lemma_line_bounds,
    count_le, line_content, line_stop, is_line_ending, is_line_start, line_end, line_of, line_start,
    lemma_count_le_append, lemma_count_le_bound, lemma_count_le_monotonic, lemma_count_le_step, lemma_count_le_take_full,
    lemma_line_start_unique, lemma_count_le_insert, lemma_count_le_remove,
};

verus! {

/// A binary tree of text chunks; each node caches its length and the number
/// of line endings below it.
pub struct Rope {
    data: RopeData,
    line_ending_count: usize,
    length: usize,
}

pub enum RopeData {
    Leaf(Vec<char>),
    Branch(Box<Rope>, Box<Rope>),
}

impl Rope {
    /// The text held by the rope, chunks read left to right.
    pub closed spec fn view(&self) -> Seq<char>
        decreases self,
    {
        match self.data {
            RopeData::Leaf(v) => v@,
            RopeData::Branch(l, r) => l.view() + r.view(),
        }
    }

    /// Cached counts agree with the text at every node.
    pub closed spec fn wf(&self) -> bool
        decreases self,
    {
        self.length < usize::MAX && match self.data {
            RopeData::Leaf(v) => self.length == v@.len() && self.line_ending_count == count_le(
                v@,
            ),
            RopeData::Branch(l, r) => l.wf() && r.wf() && self.length == l.length + r.length
                && self.line_ending_count == l.line_ending_count + r.line_ending_count,
        }
    }

    proof fn lemma_counts(&self)
        requires
            self.wf(),
        ensures
            self.length == self@.len(),
            self.line_ending_count == count_le(self@),
            self.line_ending_count <= self.length,
        decreases self,
    {
        match self.data {
            RopeData::Leaf(v) => {
                lemma_count_le_bound(v@);
            },
            RopeData::Branch(l, r) => {
                l.lemma_counts();
                r.lemma_counts();
                lemma_count_le_append(l@, r@);
            },
        }
    }

    /// A well-formed rope is shorter than `usize::MAX` and has no more line
    /// endings than characters.
    pub proof fn lemma_bounds(&self)
        requires
            self.wf(),
        ensures
            self@.len() < usize::MAX,
            count_le(self@) <= self@.len(),
    {
        self.lemma_counts();
    }

    /// An empty rope: one empty leaf.
    pub fn new() -> (r: Rope)
        ensures
            r.wf(),
            r@ == Seq::<char>::empty(),
    {
        let r = Rope { data: RopeData::Leaf(Vec::new()), line_ending_count: 0, length: 0 };
        assert(r@ =~= Seq::<char>::empty());
        r
    }

    /// Number of characters.
    pub fn len(&self) -> (r: usize)
        requires
            self.wf(),
        ensures
            r == self@.len(),
    {
        proof { self.lemma_counts(); }
        self.length
    }

    /// Number of line endings.
    pub fn line_ending_count(&self) -> (r: usize)
        requires
            self.wf(),
        ensures
            r == count_le(self@),
    {
        proof { self.lemma_counts(); }
        self.line_ending_count
    }

    /// Number of lines: one more than the number of line endings.
    pub fn line_count(&self) -> (r: usize)
        requires
            self.wf(),
        ensures
            r == count_le(self@) + 1,
    {
        proof { self.lemma_counts(); }
        self.line_ending_count + 1
    }

    /// Index of the line holding the character at `index`.
    pub fn char_index_to_line_index(&self, index: usize) -> (r: usize)
        requires
            self.wf(),
            index < self@.len(),
        ensures
            r == line_of(self@, index as int),
        decreases self,
    {
        proof { self.lemma_counts(); }
        match &self.data {
            RopeData::Leaf(text) => {
                let mut line_count: usize = 0;
                let mut i: usize = 0;
                while i < index
                    invariant
                        i <= index,
                        index < text@.len(),
                        text@ == self@,
                        line_count == count_le(text@.take(i as int)),
                        line_count <= i,
                    decreases index - i,
                {
                    proof { lemma_count_le_step(text@, i + 1); }
                    if is_line_ending(text[i]) {
                        line_count = line_count + 1;
                    }
                    i = i + 1;
                }
                line_count
            },
            RopeData::Branch(left, right) => {
                proof {
                    left.lemma_counts();
                    right.lemma_counts();
                }
                if index < left.length {
                    assert(self@.take(index as int) =~= left@.take(index as int));
                    left.char_index_to_line_index(index)
                } else {
                    let k = index - left.length;
                    proof {
                        assert(self@.take(index as int) =~= left@ + right@.take(k as int));
                        lemma_count_le_append(left@, right@.take(k as int));
                    }
                    let r = right.char_index_to_line_index(k);
                    proof {
                        lemma_count_le_monotonic(right@, k as int, right@.len() as int);
                        lemma_count_le_take_full(right@);
                    }
                    left.line_ending_count + r
                }
            },
        }
    }

    fn line_start_of(&self, line_index: usize) -> (r: usize)
        requires
            self.wf(),
            line_index <= count_le(self@),
        ensures
            is_line_start(self@, line_index as nat, r as int),
        decreases self,
    {
        proof { self.lemma_counts(); }
        match &self.data {
            RopeData::Leaf(text) => {
                let mut line_count: usize = 0;
                let mut i: usize = 0;
                while i < text.len()
                    invariant
                        i <= text@.len(),
                        text@ == self@,
                        line_index <= count_le(text@),
                        line_count == count_le(text@.take(i as int)),
                        line_count <= line_index,
                        i > 0 ==> count_le(text@.take(i - 1)) < line_index,
                    decreases text@.len() - i,
                {
                    if line_count == line_index {
                        proof {
                            if i > 0 {
                                lemma_count_le_step(text@, i as int);
                            }
                        }
                        return i;
                    }
                    proof { lemma_count_le_step(text@, i + 1); }
                    if is_line_ending(text[i]) {
                        line_count = line_count + 1;
                    }
                    i = i + 1;
                }
                proof {
                    lemma_count_le_take_full(text@);
                    if i > 0 {
                        lemma_count_le_step(text@, i as int);
                    }
                }
                i
            },
            RopeData::Branch(left, right) => {
                proof {
                    left.lemma_counts();
                    right.lemma_counts();
                    lemma_count_le_append(left@, right@);
                }
                if line_index <= left.line_ending_count {
                    let r = left.line_start_of(line_index);
                    assert(self@.take(r as int) =~= left@.take(r as int));
                    r
                } else {
                    let k = right.line_start_of(line_index - left.line_ending_count);
                    proof {
                        assert(self@.take(left.length + k) =~= left@ + right@.take(k as int));
                        lemma_count_le_append(left@, right@.take(k as int));
                    }
                    left.length + k
                }
            },
        }
    }

    /// Offset one past the last character of line `line_index`, its line
    /// ending excluded.
    pub(crate) fn line_stop_of(&self, line_index: usize) -> (r: usize)
        requires
            self.wf(),
            line_index <= count_le(self@),
        ensures
            r == line_stop(self@, line_index as nat),
    {
        proof {
            self.lemma_counts();
            lemma_line_bounds(self@, line_index as nat);
        }
        if line_index == self.line_ending_count {
            self.length
        } else {
            let n = self.begining_of_line(line_index + 1);
            n - 1
        }
    }

    /// Offset of the first character of line `line_index`.
    pub fn begining_of_line(&self, line_index: usize) -> (r: usize)
        requires
            self.wf(),
            line_index <= count_le(self@),
        ensures
            r == line_start(self@, line_index as nat),
            is_line_start(self@, line_index as nat, r as int),
    {
        let r = self.line_start_of(line_index);
        proof { lemma_line_start_unique(self@, line_index as nat, r as int); }
        r
    }

    /// Last position of line `line_index`: the offset of its line ending, or
    /// `len() - 1` for the last line.
    pub fn ending_of_line(&self, line_index: usize) -> (r: usize)
        requires
            self.wf(),
            line_index <= count_le(self@),
            self@.len() > 0,
        ensures
            r == line_end(self@, line_index as nat),
    {
        proof { self.lemma_counts(); }
        if line_index == self.line_ending_count {
            self.length - 1
        } else {
            let b = self.begining_of_line(line_index + 1);
            b - 1
        }
    }
}

/// The line index of a character never decreases as its index grows.
pub proof fn lemma_line_index_monotonic(rope: &Rope, i: usize, j: usize)
    requires
        rope.wf(),
        i <= j < rope@.len(),
    ensures
        line_of(rope@, i as int) <= line_of(rope@, j as int),
{
    lemma_count_le_monotonic(rope@, i as int, j as int);
}

/// A line begins no later than it ends, and the next line begins just after
/// the end of this one. The first part does not hold of an empty last line,
/// whose end lies before its beginning.
pub proof fn lemma_line_begin_end(rope: &Rope, line_index: usize)
    requires
        rope.wf(),
        line_index <= count_le(rope@),
        !(line_index == count_le(rope@) && line_start(rope@, line_index as nat) == rope@.len()),
    ensures
        line_start(rope@, line_index as nat) <= line_end(rope@, line_index as nat),
        line_index + 1 <= count_le(rope@) ==> line_start(rope@, (line_index + 1) as nat)
            == line_end(rope@, line_index as nat) + 1,
{
    lemma_line_bounds(rope@, line_index as nat);
}

/// Joining every line of a rope with line endings gives back its text.
pub proof fn lemma_lines_round_trip(rope: &Rope)
    requires
        rope.wf(),
    ensures
        joined_lines(rope@, count_le(rope@) + 1) == rope@,
{
    let s = rope@;
    lemma_joined_prefix(s, count_le(s) + 1);
    assert(s.take(s.len() as int) =~= s);
}

/// Largest number of characters a leaf keeps before it is split in two.
pub const MAX_LEAF_LEN: usize = 1024;

/// Number of line endings in `v`.
fn count_line_endings(v: &Vec<char>) -> (r: usize)
    ensures
        r == count_le(v@),
{
    let mut n: usize = 0;
    let mut i: usize = 0;
    while i < v.len()
        invariant
            i <= v@.len(),
            n == count_le(v@.take(i as int)),
            n <= i,
        decreases v@.len() - i,
    {
        proof { lemma_count_le_step(v@, i + 1); }
        if is_line_ending(v[i]) {
            n = n + 1;
        }
        i = i + 1;
    }
    proof { lemma_count_le_take_full(v@); }
    n
}

impl Rope {
    fn leaf(v: Vec<char>) -> (r: Rope)
        requires
            v@.len() < usize::MAX,
        ensures
            r.wf(),
            r@ == v@,
    {
        let n = count_line_endings(&v);
        let length = v.len();
        Rope { data: RopeData::Leaf(v), line_ending_count: n, length }
    }

    /// A balanced rope holding `v[lo..hi]`, in leaves of at most `MAX_LEAF_LEN`
    /// characters.
    fn build(v: &Vec<char>, lo: usize, hi: usize) -> (r: Rope)
        requires
            lo <= hi <= v@.len(),
            v@.len() < usize::MAX,
        ensures
            r.wf(),
            r@ == v@.subrange(lo as int, hi as int),
        decreases hi - lo,
    {
        if hi - lo <= MAX_LEAF_LEN {
            let mut chunk: Vec<char> = Vec::new();
            let mut i: usize = lo;
            while i < hi
                invariant
                    lo <= i <= hi,
                    hi <= v@.len(),
                    chunk@ == v@.subrange(lo as int, i as int),
                decreases hi - i,
            {
                chunk.push(v[i]);
                i = i + 1;
                assert(chunk@ =~= v@.subrange(lo as int, i as int));
            }
            Rope::leaf(chunk)
        } else {
            let mid = lo + (hi - lo) / 2;
            let l = Rope::build(v, lo, mid);
            let r = Rope::build(v, mid, hi);
            proof {
                l.lemma_counts();
                r.lemma_counts();
                lemma_count_le_append(l@, r@);
            }
            assert(l@ + r@ =~= v@.subrange(lo as int, hi as int));
            Rope {
                length: l.length + r.length,
                line_ending_count: l.line_ending_count + r.line_ending_count,
                data: RopeData::Branch(Box::new(l), Box::new(r)),
            }
        }
    }

    /// Every character of the rope, in order.
    pub fn to_vec(&self) -> (r: Vec<char>)
        requires
            self.wf(),
        ensures
            r@ == self@,
    {
        let mut out: Vec<char> = Vec::new();
        let mut it = self.chars();
        loop
            invariant
                it.wf(),
                out@ + it.rest() == self@,
            decreases it.rest().len(),
        {
            match it.next() {
                Some(c) => {
                    out.push(c);
                    assert(out@ + it.rest() =~= self@);
                },
                None => {
                    assert(out@ =~= self@);
                    return out;
                },
            }
        }
    }

    /// Rebuilds the rope balanced, its text unchanged.
    fn rebalance(&mut self)
        requires
            old(self).wf(),
        ensures
            final(self).wf(),
            final(self)@ == old(self)@,
    {
        proof { self.lemma_counts(); }
        let v = self.to_vec();
        *self = Rope::build(&v, 0, v.len());
        assert(v@.subrange(0, v@.len() as int) =~= v@);
    }

    /// Inserts `c` so that it becomes the character at `index`.
    pub fn insert(&mut self, index: usize, c: char)
        requires
            old(self).wf(),
            index <= old(self)@.len(),
            old(self)@.len() + 1 < usize::MAX,
        ensures
            final(self).wf(),
            final(self)@ == old(self)@.insert(index as int, c),
        decreases node_count(*old(self)),
    {
        proof {
            self.lemma_counts();
            lemma_count_le_insert(self@, index as int, c);
        }
        let ghost s = self@;
        let mut data = RopeData::Leaf(Vec::new());
        std::mem::swap(&mut self.data, &mut data);
        match data {
            RopeData::Leaf(v) => {
                let mut v = v;
                v.insert(index, c);
                if v.len() > MAX_LEAF_LEN {
                    let right = v.split_off(v.len() / 2);
                    assert(v@ + right@ =~= s.insert(index as int, c));
                    let l = Rope::leaf(v);
                    let r = Rope::leaf(right);
                    proof {
                        lemma_count_le_append(l@, r@);
                        l.lemma_counts();
                        r.lemma_counts();
                    }
                    self.length = l.length + r.length;
                    self.line_ending_count = l.line_ending_count + r.line_ending_count;
                    self.data = RopeData::Branch(Box::new(l), Box::new(r));
                } else {
                    self.length = v.len();
                    self.line_ending_count = if is_line_ending(c) {
                        self.line_ending_count + 1
                    } else {
                        self.line_ending_count
                    };
                    self.data = RopeData::Leaf(v);
                }
            },
            RopeData::Branch(l, r) => {
                let mut left = *l;
                let mut right = *r;
                assert(node_count(left) < node_count(*old(self)));
                assert(node_count(right) < node_count(*old(self)));
                proof {
                    left.lemma_counts();
                    right.lemma_counts();
                }
                if index <= left.length {
                    left.insert(index, c);
                    assert(left@ + right@ =~= s.insert(index as int, c));
                } else {
                    right.insert(index - left.length, c);
                    assert(left@ + right@ =~= s.insert(index as int, c));
                }
                proof {
                    left.lemma_counts();
                    right.lemma_counts();
                }
                let unbalanced = if left.length > right.length {
                    left.length - right.length > right.length + MAX_LEAF_LEN
                } else {
                    right.length - left.length > left.length + MAX_LEAF_LEN
                };
                self.length = left.length + right.length;
                self.line_ending_count = left.line_ending_count + right.line_ending_count;
                self.data = RopeData::Branch(Box::new(left), Box::new(right));
                if unbalanced {
                    self.rebalance();
                }
            },
        }
        proof { self.lemma_counts(); }
    }

    /// Removes the character at `index` and returns it.
    pub fn remove(&mut self, index: usize) -> (r: char)
        requires
            old(self).wf(),
            index < old(self)@.len(),
        ensures
            final(self).wf(),
            r == old(self)@[index as int],
            final(self)@ == old(self)@.remove(index as int),
        decreases node_count(*old(self)),
    {
        proof {
            self.lemma_counts();
            lemma_count_le_remove(self@, index as int);
        }
        let ghost s = self@;
        let mut data = RopeData::Leaf(Vec::new());
        std::mem::swap(&mut self.data, &mut data);
        match data {
            RopeData::Leaf(v) => {
                let mut v = v;
                let c = v.remove(index);
                self.length = v.len();
                self.line_ending_count = if is_line_ending(c) {
                    self.line_ending_count - 1
                } else {
                    self.line_ending_count
                };
                self.data = RopeData::Leaf(v);
                c
            },
            RopeData::Branch(l, r) => {
                let mut left = *l;
                let mut right = *r;
                assert(node_count(left) < node_count(*old(self)));
                assert(node_count(right) < node_count(*old(self)));
                proof {
                    left.lemma_counts();
                    right.lemma_counts();
                }
                let c = if index < left.length {
                    let c = left.remove(index);
                    assert(left@ + right@ =~= s.remove(index as int));
                    c
                } else {
                    let c = right.remove(index - left.length);
                    assert(left@ + right@ =~= s.remove(index as int));
                    c
                };
                proof {
                    left.lemma_counts();
                    right.lemma_counts();
                }
                if left.length == 0 {
                    assert(left@ + right@ =~= right@);
                    *self = right;
                } else if right.length == 0 {
                    assert(left@ + right@ =~= left@);
                    *self = left;
                } else {
                    self.length = left.length + right.length;
                    self.line_ending_count = left.line_ending_count + right.line_ending_count;
                    self.data = RopeData::Branch(Box::new(left), Box::new(right));
                    if self.length <= MAX_LEAF_LEN {
                        self.rebalance();
                    }
                }
                c
            },
        }
    }
}

/// Number of nodes of a rope.
pub closed spec fn node_count(r: Rope) -> nat
    decreases r,
{
    match r.data {
        RopeData::Leaf(_) => 1,
        RopeData::Branch(l, rt) => 1 + node_count(*l) + node_count(*rt),
    }
}

/// Text of the ropes on a stack, read from the top down.
pub closed spec fn stack_text(s: Seq<&Rope>) -> Seq<char>
    decreases s.len(),
{
    if s.len() == 0 {
        Seq::empty()
    } else {
        s.last()@ + stack_text(s.drop_last())
    }
}

/// The leaf texts of a rope, left to right.
pub closed spec fn leaves(r: Rope) -> Seq<Seq<char>>
    decreases r,
{
    match r.data {
        RopeData::Leaf(v) => seq![v@],
        RopeData::Branch(l, rt) => leaves(*l) + leaves(*rt),
    }
}

/// Position in `leaves(r)` of the leaf that holds the character at `index`.
pub closed spec fn leaf_index_of(r: Rope, index: int) -> int
    decreases r,
{
    match r.data {
        RopeData::Leaf(_) => 0,
        RopeData::Branch(l, rt) => if index < l@.len() {
            leaf_index_of(*l, index)
        } else {
            leaves(*l).len() + leaf_index_of(*rt, index - l@.len())
        },
    }
}

/// The leaf texts of the ropes on a stack, read from the top down.
pub closed spec fn stack_chunks(s: Seq<&Rope>) -> Seq<Seq<char>>
    decreases s.len(),
{
    if s.len() == 0 {
        Seq::empty()
    } else {
        leaves(*s.last()) + stack_chunks(s.drop_last())
    }
}

/// A rope has at least one leaf, and its leaves joined give its text.
pub proof fn lemma_leaves(r: Rope)
    ensures
        leaves(r).len() >= 1,
        leaves(r).flatten() == r@,
    decreases r,
{
    match r.data {
        RopeData::Leaf(v) => {
            seq![v@].lemma_flatten_one_element();
        },
        RopeData::Branch(l, rt) => {
            lemma_leaves(*l);
            lemma_leaves(*rt);
            lemma_flatten_concat(leaves(*l), leaves(*rt));
        },
    }
}

/// The leaf at `leaf_index_of(r, index)` is the one holding `index`: the
/// leaves before it hold exactly the characters before its start.
pub proof fn lemma_leaf_index(r: Rope, index: int)
    requires
        0 <= index < r@.len(),
    ensures
        0 <= leaf_index_of(r, index) < leaves(r).len(),
        leaves(r).take(leaf_index_of(r, index)).flatten().len() <= index,
        index < leaves(r).take(leaf_index_of(r, index)).flatten().len() + leaves(r)[leaf_index_of(
            r,
            index,
        )].len(),
    decreases r,
{
    match r.data {
        RopeData::Leaf(v) => {
            assert(leaves(r).take(0) =~= Seq::<Seq<char>>::empty());
        },
        RopeData::Branch(l, rt) => {
            lemma_leaves(*l);
            if index < l@.len() {
                lemma_leaf_index(*l, index);
                let k = leaf_index_of(*l, index);
                assert(leaves(r).take(k) =~= leaves(*l).take(k));
            } else {
                lemma_leaf_index(*rt, index - l@.len());
                let k = leaf_index_of(*rt, index - l@.len());
                assert(leaves(r).take(leaves(*l).len() + k) =~= leaves(*l) + leaves(*rt).take(k));
                lemma_flatten_concat(leaves(*l), leaves(*rt).take(k));
            }
        },
    }
}

proof fn lemma_stack_chunks(s: Seq<&Rope>)
    ensures
        stack_chunks(s).flatten() == stack_text(s),
        s.len() > 0 <==> stack_chunks(s).len() > 0,
    decreases s.len(),
{
    if s.len() > 0 {
        lemma_stack_chunks(s.drop_last());
        lemma_leaves(*s.last());
        lemma_flatten_concat(leaves(*s.last()), stack_chunks(s.drop_last()));
    }
}

/// Number of nodes on a stack of ropes.
pub closed spec fn stack_nodes(s: Seq<&Rope>) -> nat
    decreases s.len(),
{
    if s.len() == 0 {
        0
    } else {
        node_count(*s.last()) + stack_nodes(s.drop_last())
    }
}

/// The leaf chunks of a rope, left to right, from a stack of subtrees still to visit.
pub struct RopeChunkIter<'a> {
    node_stack: Vec<&'a Rope>,
}

impl<'a> RopeChunkIter<'a> {
    /// The characters of the chunks not handed out yet.
    pub closed spec fn rest(&self) -> Seq<char> {
        stack_text(self.node_stack@)
    }

    /// The leaf texts not handed out yet, in the order they come.
    pub closed spec fn chunks(&self) -> Seq<Seq<char>> {
        stack_chunks(self.node_stack@)
    }

    /// The characters still to come are the chunks still to come, joined.
    pub proof fn lemma_rest_is_chunks(&self)
        ensures
            self.rest() == self.chunks().flatten(),
    {
        lemma_stack_chunks(self.node_stack@);
    }

    pub closed spec fn wf(&self) -> bool {
        forall|i: int| 0 <= i < self.node_stack@.len() ==> (#[trigger] self.node_stack@[i]).wf()
    }

    pub closed spec fn measure(&self) -> nat {
        stack_nodes(self.node_stack@)
    }

    /// The chunks of the whole rope.
    pub fn new(rope: &'a Rope) -> (r: RopeChunkIter<'a>)
        requires
            rope.wf(),
        ensures
            r.wf(),
            r.rest() == rope@,
    {
        let mut node_stack: Vec<&'a Rope> = Vec::new();
        node_stack.push(rope);
        let r = RopeChunkIter { node_stack };
        assert(r.node_stack@.drop_last() =~= Seq::<&Rope>::empty());
        assert(stack_text(Seq::<&Rope>::empty()) =~= Seq::<char>::empty());
        assert(r.rest() =~= rope@);
        r
    }

    /// The chunks from the one holding the character at `index`, and the
    /// offset of that character in the chunks handed out.
    pub fn from_char_index(rope: &'a Rope, index: usize) -> (r: (RopeChunkIter<'a>, usize))
        requires
            rope.wf(),
            index < rope@.len(),
        ensures
            r.0.wf(),
            r.1 <= index,
            r.1 < r.0.rest().len(),
            r.0.rest() == rope@.skip(index - r.1),
            r.0.rest().skip(r.1 as int) == rope@.skip(index as int),
            r.0.chunks() == leaves(*rope).skip(leaf_index_of(*rope, index as int)),
            r.1 < leaves(*rope)[leaf_index_of(*rope, index as int)].len(),
            leaves(*rope).take(leaf_index_of(*rope, index as int)).flatten().len() + r.1 == index,
    {
        let r = RopeChunkIter::from_char_index_intern(rope, index, Vec::new());
        assert(stack_text(Seq::<&Rope>::empty()) =~= Seq::<char>::empty());
        assert(stack_chunks(Seq::<&Rope>::empty()) =~= Seq::<Seq<char>>::empty());
        assert(rope@.skip(index as int) + Seq::<char>::empty() =~= rope@.skip(index as int));
        assert(rope@.skip(index - r.1) + Seq::<char>::empty() =~= rope@.skip(index - r.1));
        let ghost k = leaf_index_of(*rope, index as int);
        assert(leaves(*rope).skip(k) + Seq::<Seq<char>>::empty() =~= leaves(*rope).skip(k));
        r
    }

    fn from_char_index_intern(rope: &'a Rope, index: usize, stack: Vec<&'a Rope>) -> (r: (
        RopeChunkIter<'a>,
        usize,
    ))
        requires
            rope.wf(),
            index < rope@.len(),
            forall|i: int| 0 <= i < stack@.len() ==> (#[trigger] stack@[i]).wf(),
        ensures
            r.0.wf(),
            r.1 <= index,
            r.1 < r.0.rest().len(),
            r.0.rest() == rope@.skip(index - r.1) + stack_text(stack@),
            r.0.rest().skip(r.1 as int) == rope@.skip(index as int) + stack_text(stack@),
            r.0.chunks() == leaves(*rope).skip(leaf_index_of(*rope, index as int)) + stack_chunks(
                stack@,
            ),
            r.1 < leaves(*rope)[leaf_index_of(*rope, index as int)].len(),
            leaves(*rope).take(leaf_index_of(*rope, index as int)).flatten().len() + r.1 == index,
        decreases rope,
    {
        proof {
            rope.lemma_counts();
            lemma_leaf_index(*rope, index as int);
        }
        let mut stack = stack;
        match &rope.data {
            RopeData::Leaf(v) => {
                let ghost old_stack = stack@;
                stack.push(rope);
                let r = RopeChunkIter { node_stack: stack };
                assert(r.node_stack@.drop_last() =~= old_stack);
                assert(r.rest().skip(index as int) =~= rope@.skip(index as int) + stack_text(
                    old_stack,
                ));
                assert(rope@.skip(0) =~= rope@);
                assert(leaves(*rope) == seq![v@]);
                assert(leaves(*rope).skip(0) =~= leaves(*rope));
                assert(leaves(*rope).take(0) =~= Seq::<Seq<char>>::empty());
                (r, index)
            },
            RopeData::Branch(left, right) => {
                proof {
                    left.lemma_counts();
                    right.lemma_counts();
                    lemma_leaves(**left);
                }
                let ghost ls = leaves(**left);
                let ghost rs = leaves(**right);
                assert(leaves(*rope) == ls + rs);
                if index < left.length {
                    let ghost old_stack = stack@;
                    let rr: &'a Rope = right;
                    stack.push(rr);
                    assert(stack@.drop_last() =~= old_stack);
                    let r = RopeChunkIter::from_char_index_intern(left, index, stack);
                    proof {
                        lemma_leaf_index(**left, index as int);
                        let k = leaf_index_of(**left, index as int);
                        assert(leaf_index_of(*rope, index as int) == k);
                        assert(stack_chunks(stack@) == rs + stack_chunks(old_stack));
                        assert((ls + rs).skip(k) + stack_chunks(old_stack) =~= ls.skip(k) + (rs
                            + stack_chunks(old_stack)));
                        assert((ls + rs).take(k) =~= ls.take(k));
                        assert((ls + rs)[k] == ls[k]);
                    }
                    assert(rope@.skip(index as int) =~= left@.skip(index as int) + right@);
                    assert(rope@.skip(index - r.1) =~= left@.skip(index - r.1) + right@);
                    assert(r.0.rest() =~= rope@.skip(index - r.1) + stack_text(old_stack));
                    assert(r.0.rest().skip(r.1 as int) =~= rope@.skip(index as int) + stack_text(
                        old_stack,
                    ));
                    r
                } else {
                    let r = RopeChunkIter::from_char_index_intern(right, index - left.length, stack);
                    proof {
                        let i2 = index - left.length;
                        lemma_leaf_index(**right, i2);
                        let k = leaf_index_of(**right, i2);
                        assert(leaf_index_of(*rope, index as int) == ls.len() + k);
                        assert((ls + rs).skip(ls.len() + k) =~= rs.skip(k));
                        assert((ls + rs).take(ls.len() + k) =~= ls + rs.take(k));
                        lemma_flatten_concat(ls, rs.take(k));
                        assert((ls + rs)[ls.len() + k] == rs[k]);
                    }
                    assert(rope@.skip(index as int) =~= right@.skip(index - left.length));
                    assert(rope@.skip(index - r.1) =~= right@.skip(index - left.length - r.1));
                    r
                }
            },
        }
    }

    /// The next chunk, or `None` once every chunk has been handed out.
    pub fn next(&mut self) -> (r: Option<&'a Vec<char>>)
        requires
            old(self).wf(),
        ensures
            final(self).wf(),
            match r {
                None => old(self).chunks().len() == 0 && old(self).rest().len() == 0
                    && final(self).rest().len() == 0 && final(self).chunks().len() == 0
                    && final(self).measure() == 0,
                Some(c) => old(self).chunks().len() > 0 && c@ == old(self).chunks()[0]
                    && final(self).chunks() == old(self).chunks().drop_first()
                    && old(self).rest() == c@ + final(self).rest() && final(self).measure()
                    < old(self).measure(),
            },
    {
        let ghost start = self.rest();
        let ghost start_chunks = self.chunks();
        let ghost start_measure = self.measure();
        loop
            invariant
                self.wf(),
                self.rest() == start,
                start == old(self).rest(),
                self.chunks() == start_chunks,
                start_chunks == old(self).chunks(),
                start_measure == old(self).measure(),
                self.measure() <= start_measure,
            decreases self.measure(),
        {
            let ghost before = self.node_stack@;
            match self.node_stack.pop() {
                None => {
                    assert(stack_text(self.node_stack@) =~= Seq::<char>::empty());
                    assert(stack_nodes(self.node_stack@) == 0);
                    assert(stack_chunks(self.node_stack@) =~= Seq::<Seq<char>>::empty());
                    return None;
                },
                Some(node) => {
                    assert(self.node_stack@ =~= before.drop_last());
                    assert(node == before.last());
                    assert(node.wf());
                    assert(stack_text(before) == node@ + stack_text(self.node_stack@));
                    assert(stack_nodes(before) == node_count(*node) + stack_nodes(
                        self.node_stack@,
                    ));
                    assert(stack_chunks(before) == leaves(*node) + stack_chunks(self.node_stack@));
                    match &node.data {
                        RopeData::Leaf(text) => {
                            assert(node@ == text@);
                            assert(leaves(*node) == seq![text@]);
                            assert(start_chunks.drop_first() =~= stack_chunks(self.node_stack@));
                            return Some(text);
                        },
                        RopeData::Branch(left, right) => {
                            let rr: &'a Rope = right;
                            let ll: &'a Rope = left;
                            assert(node@ == ll@ + rr@);
                            assert(node_count(*node) == 1 + node_count(*ll) + node_count(*rr));
                            let ghost mid = self.node_stack@;
                            self.node_stack.push(rr);
                            assert(self.node_stack@.drop_last() =~= mid);
                            let ghost mid2 = self.node_stack@;
                            self.node_stack.push(ll);
                            assert(self.node_stack@.drop_last() =~= mid2);
                            assert(stack_text(mid2) == rr@ + stack_text(mid));
                            assert(stack_nodes(mid2) == node_count(*rr) + stack_nodes(mid));
                            assert(self.rest() =~= start);
                            assert(leaves(*node) == leaves(*ll) + leaves(*rr));
                            assert(stack_chunks(mid2) == leaves(*rr) + stack_chunks(mid));
                            assert(self.chunks() =~= start_chunks);
                        },
                    }
                },
            }
        }
    }
}

/// Text of an optional chunk.
pub closed spec fn chunk_text(c: Option<&Vec<char>>) -> Seq<char> {
    match c {
        Some(v) => v@,
        None => Seq::empty(),
    }
}

/// The characters of a rope from some offset on, optionally bounded in count.
pub struct RopeCharIter<'a> {
    chunk_iter: RopeChunkIter<'a>,
    cur_chunk: Option<&'a Vec<char>>,
    cur_pos: usize,
    length: Option<usize>,
}

impl<'a> RopeCharIter<'a> {
    closed spec fn unbounded(&self) -> Seq<char> {
        (chunk_text(self.cur_chunk) + self.chunk_iter.rest()).skip(self.cur_pos as int)
    }

    /// The characters not handed out yet.
    pub closed spec fn rest(&self) -> Seq<char> {
        match self.length {
            Some(n) => self.unbounded().take(n as int),
            None => self.unbounded(),
        }
    }

    pub closed spec fn wf(&self) -> bool {
        &&& self.chunk_iter.wf()
        &&& self.cur_pos <= chunk_text(self.cur_chunk).len() + self.chunk_iter.rest().len()
        &&& match self.length {
            Some(n) => n <= self.unbounded().len(),
            None => true,
        }
    }

    /// The next character, or `None` at the end.
    pub fn next(&mut self) -> (r: Option<char>)
        requires
            old(self).wf(),
        ensures
            final(self).wf(),
            old(self).rest().len() == 0 ==> r == None::<char> && final(self).rest().len() == 0,
            old(self).rest().len() > 0 ==> r == Some(old(self).rest()[0]) && final(self).rest()
                == old(self).rest().drop_first(),
    {
        if let Some(l) = self.length {
            if l == 0 {
                assert(self.rest().len() == 0);
                return None;
            }
        }
        let ghost start = self.rest();
        loop
            invariant
                self.wf(),
                self.rest() == start,
                start == old(self).rest(),
                self.length.is_some() ==> self.length.unwrap() > 0,
            decreases self.chunk_iter.measure(),
        {
            let chunk_len: usize = match self.cur_chunk {
                Some(v) => v.len(),
                None => 0,
            };
            if self.cur_pos < chunk_len {
                let c = match self.cur_chunk {
                    Some(v) => v[self.cur_pos],
                    None => ' ',
                };
                let ghost before = self.unbounded();
                assert(chunk_text(self.cur_chunk).len() == chunk_len);
                assert(before.len() > 0);
                assert(c == before[0]);
                self.cur_pos = self.cur_pos + 1;
                assert(self.unbounded() =~= before.drop_first());
                match self.length {
                    Some(n) => {
                        self.length = Some(n - 1);
                        assert(self.rest() =~= start.drop_first());
                    },
                    None => {
                        assert(self.rest() =~= start.drop_first());
                    },
                }
                return Some(c);
            } else {
                let ghost before = self.unbounded();
                match self.chunk_iter.next() {
                    Some(s) => {
                        self.cur_pos = self.cur_pos - chunk_len;
                        self.cur_chunk = Some(s);
                        assert(self.unbounded() =~= before);
                    },
                    None => {
                        assert(chunk_text(self.cur_chunk).len() == chunk_len);
                        assert(before.len() == 0);
                        assert(start.len() == 0);
                        return None;
                    },
                }
            }
        }
    }
}

impl Rope {
    /// The characters of line `line_index`, its line ending excluded.
    pub fn line(&self, line_index: usize) -> (r: RopeCharIter<'_>)
        requires
            self.wf(),
            line_index <= count_le(self@),
        ensures
            r.wf(),
            r.rest() == line_content(self@, line_index as nat),
    {
        proof { lemma_line_bounds(self@, line_index as nat); }
        let a = self.begining_of_line(line_index);
        let b = self.line_stop_of(line_index);
        if a == b {
            let r = RopeCharIter {
                chunk_iter: RopeChunkIter::new(self),
                cur_chunk: None,
                cur_pos: 0,
                length: Some(0),
            };
            assert(r.rest() =~= line_content(self@, line_index as nat));
            r
        } else {
            let (chunk_iter, i) = RopeChunkIter::from_char_index(self, a);
            let r = RopeCharIter { chunk_iter, cur_chunk: None, cur_pos: i, length: Some(b - a) };
            assert(chunk_text(None::<&Vec<char>>) + chunk_iter.rest() =~= chunk_iter.rest());
            assert(r.rest() =~= line_content(self@, line_index as nat));
            r
        }
    }

    /// Every character of the rope.
    pub fn chars(&self) -> (r: RopeCharIter<'_>)
        requires
            self.wf(),
        ensures
            r.wf(),
            r.rest() == self@,
    {
        let chunk_iter = RopeChunkIter::new(self);
        let r = RopeCharIter { chunk_iter, cur_chunk: None, cur_pos: 0, length: None };
        assert(r.rest() =~= self@);
        r
    }
}

} // verus!
