use crate::traits::InnerKeys;
use vstd::prelude::*;

verus! {

/// What one sample did to the line editor.
pub enum InputState<K> {
    /// Nothing was committed: only text modifiers are held, or every key is released.
    Running(K),
    /// The buffer or the cursor changed.
    Updated,
    /// The validate key was recognised; the line is ready to be read.
    Validated,
    /// The sample was rejected: an edit met a boundary, or a new sample that
    /// is neither a control key nor only text modifiers came while the editor
    /// was not ready for a character.
    Overflow,
    /// The sample repeats the one before it, or, with the editor ready, is a
    /// state that it has no use for.
    NotForMe(K),
}

/// The mathematical state of a line editor.
pub struct Line<K> {
    pub cells: Seq<u8>,
    pub cursor: nat,
    pub last: K,
    pub ready: bool,
    pub left: K,
    pub right: K,
    pub backspace: K,
    pub validate: K,
}

/// Two key states with the same bitmask.
pub open spec fn same<K: InnerKeys>(a: K, b: K) -> bool {
    a.bits() == b.bits()
}

/// The number of bytes before the first zero byte, or all of them.
pub open spec fn content_len(cells: Seq<u8>) -> nat
    decreases cells.len(),
{
    if cells.len() == 0 || cells[0] == 0 {
        0
    } else {
        1 + content_len(cells.drop_first())
    }
}

/// `cells` with `c` put in at `at`; what follows moves right and the last cell is dropped.
pub open spec fn insert_at(cells: Seq<u8>, at: int, c: u8) -> Seq<u8> {
    cells.insert(at, c).drop_last()
}

/// `cells` without the cell before `at`; what follows moves left and a zero fills the end.
pub open spec fn delete_before(cells: Seq<u8>, at: int) -> Seq<u8> {
    cells.remove(at - 1).push(0u8)
}

/// The byte shown before the cursor when a line is written out: `>`.
pub const CURSOR_OPEN: u8 = 62;

/// The byte shown after the cursor when a line is written out: `<`.
pub const CURSOR_CLOSE: u8 = 60;

/// The line as it is written out: the bytes before the cursor, `>`, `<`, and
/// the bytes from the cursor to the end of the content.
pub open spec fn with_cursor(cells: Seq<u8>, cursor: int) -> Seq<u8> {
    let rest = if cursor < content_len(cells) {
        cells.subrange(cursor, content_len(cells) as int)
    } else {
        Seq::empty()
    };
    cells.take(cursor).push(CURSOR_OPEN).push(CURSOR_CLOSE) + rest
}

/// A line whose content is left-packed, with the cursor inside the content.
pub open spec fn packed<K>(s: Line<K>) -> bool {
    &&& s.cursor <= content_len(s.cells)
    &&& forall|i: int| content_len(s.cells) <= i < s.cells.len() ==> s.cells[i] == 0
}

/// The editor's transition: the state after the sample `key`, and the outcome.
pub open spec fn step<K: InnerKeys>(s: Line<K>, key: K) -> (Line<K>, InputState<K>) {
    let seen = Line { last: key, ..s };
    if same(key, s.last) {
        (seen, InputState::NotForMe(key))
    } else if key.one_char() is Some && s.ready {
        let spent = Line { ready: false, ..seen };
        if s.cursor >= s.cells.len() || s.cells.last() != 0 {
            (spent, InputState::Overflow)
        } else {
            (
                Line {
                    cells: insert_at(s.cells, s.cursor as int, key.one_char().unwrap()),
                    cursor: s.cursor + 1,
                    ..spent
                },
                InputState::Updated,
            )
        }
    } else if key.bits() != 0 {
        let only_text_modifiers = same(key.text_modifiers(), key);
        let armed = Line { ready: s.ready || only_text_modifiers, ..seen };
        if same(key, s.validate) {
            (armed, InputState::Validated)
        } else if same(key, s.backspace) {
            if s.cursor == 0 {
                (armed, InputState::Overflow)
            } else {
                (
                    Line {
                        cells: delete_before(s.cells, s.cursor as int),
                        cursor: (s.cursor - 1) as nat,
                        ..armed
                    },
                    InputState::Updated,
                )
            }
        } else if same(key, s.left) {
            if s.cursor == 0 {
                (armed, InputState::Overflow)
            } else {
                (Line { cursor: (s.cursor - 1) as nat, ..armed }, InputState::Updated)
            }
        } else if same(key, s.right) {
            if s.cursor >= s.cells.len() || s.cells[s.cursor as int] == 0 {
                (armed, InputState::Overflow)
            } else {
                (Line { cursor: s.cursor + 1, ..armed }, InputState::Updated)
            }
        } else if only_text_modifiers {
            (armed, InputState::Running(key))
        } else if !s.ready {
            (armed, InputState::Overflow)
        } else {
            (armed, InputState::NotForMe(key))
        }
    } else {
        (Line { ready: true, ..seen }, InputState::Running(key.text_modifiers()))
    }
}

/// `content_len` is the one position that has only non-zero bytes before it and
/// a zero byte, or the end, at it.
pub proof fn lemma_first_zero_is_content_len(cells: Seq<u8>, n: nat)
    requires
        n <= cells.len(),
        forall|i: int| 0 <= i < n ==> cells[i] != 0,
        n == cells.len() || cells[n as int] == 0,
    ensures
        content_len(cells) == n,
    decreases n,
{
    if n > 0 {
        let rest = cells.drop_first();
        assert forall|i: int| 0 <= i < n - 1 implies rest[i] != 0 by {
            assert(rest[i] == cells[i + 1]);
        }
        lemma_first_zero_is_content_len(rest, (n - 1) as nat);
    }
}

/// What `content_len` is: no zero byte before it, and a zero byte or the end at it.
pub proof fn lemma_content_len_is_first_zero(cells: Seq<u8>)
    ensures
        content_len(cells) <= cells.len(),
        forall|i: int| 0 <= i < content_len(cells) ==> cells[i] != 0,
        content_len(cells) == cells.len() || cells[content_len(cells) as int] == 0,
    decreases cells.len(),
{
    if cells.len() != 0 && cells[0] != 0 {
        let rest = cells.drop_first();
        lemma_content_len_is_first_zero(rest);
        assert forall|i: int| 0 <= i < content_len(cells) implies cells[i] != 0 by {
            if i > 0 {
                assert(cells[i] == rest[i - 1]);
            }
        }
        if content_len(cells) != cells.len() {
            assert(cells[content_len(cells) as int] == rest[content_len(rest) as int]);
        }
    }
}

/// The sample is a new state with a key down that inserts no character: the
/// control keys are looked at.
pub open spec fn reaches_controls<K: InnerKeys>(s: Line<K>, key: K) -> bool {
    &&& !same(key, s.last)
    &&& !(key.one_char() is Some && s.ready)
    &&& key.bits() != 0
}

/// The sample is a new state that inserts its character, if there is room.
pub open spec fn is_insertion<K: InnerKeys>(s: Line<K>, key: K) -> bool {
    &&& !same(key, s.last)
    &&& key.one_char() is Some
    &&& s.ready
}

/// A sample that repeats the one before it is answered with `NotForMe` and
/// changes nothing.
pub proof fn lemma_repeated_sample_is_ignored<K: InnerKeys>(s: Line<K>, key: K)
    ensures
        step(step(s, key).0, key) == (step(s, key).0, InputState::NotForMe(key)),
{
}

/// An insertion into a buffer in which every byte is non-zero is answered with
/// `Overflow`, and leaves content and cursor as they were.
pub proof fn lemma_full_buffer_rejects_insertion<K: InnerKeys>(s: Line<K>, key: K)
    requires
        forall|i: int| 0 <= i < s.cells.len() ==> s.cells[i] != 0,
        is_insertion(s, key),
    ensures
        step(s, key).1 == InputState::<K>::Overflow,
        step(s, key).0.cells == s.cells,
        step(s, key).0.cursor == s.cursor,
{
}

/// Backspace and left with the cursor at 0, and right with the cursor at the
/// end of the content, are answered with `Overflow`, and leave content and
/// cursor as they were.
pub proof fn lemma_cursor_stops_at_boundaries<K: InnerKeys>(s: Line<K>, key: K)
    requires
        reaches_controls(s, key),
        !same(key, s.validate),
        ({
            ||| (same(key, s.backspace) || same(key, s.left)) && s.cursor == 0
            ||| !same(key, s.backspace) && !same(key, s.left) && same(key, s.right) && s.cursor
                == content_len(s.cells)
        }),
    ensures
        step(s, key).1 == InputState::<K>::Overflow,
        step(s, key).0.cells == s.cells,
        step(s, key).0.cursor == s.cursor,
{
    lemma_content_len_is_first_zero(s.cells);
}

/// A backspace right after an insertion gives back the content and the cursor
/// from before the insertion.
pub proof fn lemma_backspace_undoes_insertion<K: InnerKeys>(s: Line<K>, typed: K, erase: K)
    requires
        s.cursor < s.cells.len(),
        s.cells.last() == 0,
        is_insertion(s, typed),
        !same(erase, typed),
        erase.bits() != 0,
        same(erase, s.backspace),
        !same(erase, s.validate),
    ensures
        step(s, typed).1 == InputState::<K>::Updated,
        step(s, typed).0.cells == insert_at(s.cells, s.cursor as int, typed.one_char().unwrap()),
        step(step(s, typed).0, erase).1 == InputState::<K>::Updated,
        step(step(s, typed).0, erase).0.cells == s.cells,
        step(step(s, typed).0, erase).0.cursor == s.cursor,
{
    let c = typed.one_char().unwrap();
    let after = insert_at(s.cells, s.cursor as int, c);
    assert(delete_before(after, (s.cursor + 1) as int) =~= s.cells);
}

/// A step keeps the length of the buffer, the control keys, and the cursor
/// inside the buffer, and remembers the sample.
pub proof fn lemma_step_keeps_shape<K: InnerKeys>(s: Line<K>, key: K)
    requires
        s.cursor <= s.cells.len(),
    ensures
        step(s, key).0.cells.len() == s.cells.len(),
        step(s, key).0.cursor <= s.cells.len(),
        step(s, key).0.last == key,
        step(s, key).0.left == s.left,
        step(s, key).0.right == s.right,
        step(s, key).0.backspace == s.backspace,
        step(s, key).0.validate == s.validate,
{
}

/// A key that is held inserts once: while the editor is not ready no step
/// inserts, and it becomes ready again only when every key is released or only
/// text modifiers are held.
pub proof fn lemma_held_key_does_not_repeat<K: InnerKeys>(s: Line<K>, key: K)
    requires
        !s.ready,
    ensures
        step(s, key).0.cells == s.cells || step(s, key).0.cells == delete_before(
            s.cells,
            s.cursor as int,
        ),
        step(s, key).0.ready ==> !same(key, s.last) && (key.bits() == 0 || same(
            key.text_modifiers(),
            key,
        )),
{
}

/// A new sample with a key down that is neither a control key nor only text
/// modifiers, while the editor is not ready, is answered with `Overflow`; it
/// changes nothing but the remembered sample.
pub proof fn lemma_unready_sample_overflows<K: InnerKeys>(s: Line<K>, key: K)
    requires
        !s.ready,
        !same(key, s.last),
        key.bits() != 0,
        !same(key.text_modifiers(), key),
        !same(key, s.validate),
        !same(key, s.backspace),
        !same(key, s.left),
        !same(key, s.right),
    ensures
        step(s, key) == (Line { last: key, ..s }, InputState::<K>::Overflow),
{
}

/// `NotForMe` answers only a sample that repeats the one before it, or one
/// that comes while the editor is ready.
pub proof fn lemma_not_for_me_only_if_repeated_or_ready<K: InnerKeys>(s: Line<K>, key: K)
    requires
        step(s, key).1 is NotForMe,
    ensures
        step(s, key).1 == InputState::NotForMe(key),
        same(key, s.last) || s.ready,
        step(s, key).0 == (Line { last: key, ..s }),
{
}

/// After an insertion, whether it found room or not, the editor is not ready.
pub proof fn lemma_insertion_disarms<K: InnerKeys>(s: Line<K>, key: K)
    requires
        is_insertion(s, key),
    ensures
        !step(s, key).0.ready,
{
}

/// A step that inserts no zero byte keeps a left-packed line left-packed, with
/// the cursor inside its content.
pub proof fn lemma_step_keeps_packed<K: InnerKeys>(s: Line<K>, key: K)
    requires
        packed(s),
        key.one_char() != Some(0u8),
    ensures
        packed(step(s, key).0),
{
    let n = content_len(s.cells);
    let t = step(s, key).0;
    lemma_content_len_is_first_zero(s.cells);
    if t.cells != s.cells {
        if is_insertion(s, key) {
            assert(t.cells == insert_at(s.cells, s.cursor as int, key.one_char().unwrap()));
            lemma_first_zero_is_content_len(t.cells, n + 1);
        } else {
            assert(t.cells == delete_before(s.cells, s.cursor as int));
            lemma_first_zero_is_content_len(t.cells, (n - 1) as nat);
        }
    }
}

/// A fixed-capacity line-edit buffer with a cursor, driven by key samples.
pub struct InputBuffer<const S: usize, K> {
    pub buffer: [u8; S],
    pub left: K,
    pub right: K,
    pub backspace: K,
    pub validate: K,
    pub last: K,
    pub ready: bool,
    pub cursor: usize,
}

impl<const S: usize, K: InnerKeys> InputBuffer<S, K> {
    pub open spec fn view(&self) -> Line<K> {
        Line {
            cells: self.buffer@,
            cursor: self.cursor as nat,
            last: self.last,
            ready: self.ready,
            left: self.left,
            right: self.right,
            backspace: self.backspace,
            validate: self.validate,
        }
    }

    /// The cursor is a position of the buffer or its end.
    pub open spec fn wf(&self) -> bool {
        self@.cursor <= S
    }

    pub fn new() -> (r: Self)
        ensures
            r.wf(),
            packed(r@),
            r@.cells == Seq::new(S as nat, |i: int| 0u8),
            r@.cursor == 0,
            r@.ready,
            r@.last.bits() == 0,
            r@.left.bits() == 0,
            r@.right.bits() == 0,
            r@.backspace.bits() == 0,
            r@.validate.bits() == 0,
    {
        let r = Self {
            buffer: [0u8;S],
            last: K::empty(),
            left: K::empty(),
            right: K::empty(),
            backspace: K::empty(),
            validate: K::empty(),
            ready: true,
            cursor: 0,
        };
        assert(r.buffer@ =~= Seq::new(S as nat, |i: int| 0u8));
        r
    }

    pub fn len(&self) -> (r: usize)
        ensures
            r == content_len(self@.cells),
            r <= S,
    {
        let mut len: usize = 0;
        while len < S && self.buffer[len] != 0
            invariant
                len <= S,
                self.buffer@.len() == S,
                forall|i: int| 0 <= i < len ==> self.buffer@[i] != 0,
            decreases S - len,
        {
            len += 1;
        }
        proof {
            lemma_first_zero_is_content_len(self.buffer@, len as nat);
        }
        len
    }

    pub fn get_data(&self) -> (r: &[u8])
        ensures
            r@ == self@.cells.take(content_len(self@.cells) as int),
    {
        let len = self.len();
        vstd::slice::slice_subrange(self.buffer.as_slice(), 0, len)
    }

    pub fn get_cursor(&self) -> (r: usize)
        ensures
            r == self@.cursor,
    {
        self.cursor
    }

    pub fn clear(&mut self)
        ensures
            final(self)@ == (Line {
                cells: Seq::new(S as nat, |i: int| 0u8),
                cursor: 0,
                ..old(self)@
            }),
            final(self).wf(),
            packed(final(self)@),
    {
        self.buffer = [0u8;S];
        self.cursor = 0;
        assert(self.buffer@ =~= Seq::new(S as nat, |i: int| 0u8));
    }

    /// The bytes that show the line with its cursor, for a log or a display.
    pub fn format_bytes(&self) -> (r: Vec<u8>)
        requires
            self.wf(),
        ensures
            r@ == with_cursor(self@.cells, self@.cursor as int),
    {
        let len = self.len();
        let mut out: Vec<u8> = Vec::new();
        let mut i: usize = 0;
        while i < self.cursor
            invariant
                i <= self.cursor <= S,
                self.buffer@.len() == S,
                out@ == self.buffer@.take(i as int),
            decreases self.cursor - i,
        {
            out.push(self.buffer[i]);
            i += 1;
            assert(out@ =~= self.buffer@.take(i as int));
        }
        out.push(CURSOR_OPEN);
        out.push(CURSOR_CLOSE);
        let ghost head = out@;
        while i < len
            invariant
                self.cursor <= i,
                len <= S,
                self.buffer@.len() == S,
                self.cursor < len ==> i <= len && out@ == head + self.buffer@.subrange(
                    self.cursor as int,
                    i as int,
                ),
                self.cursor >= len ==> out@ == head,
            decreases len - i,
        {
            out.push(self.buffer[i]);
            i += 1;
            assert(out@ =~= head + self.buffer@.subrange(self.cursor as int, i as int));
        }
        assert(out@ =~= with_cursor(self@.cells, self@.cursor as int));
        out
    }

    /// Takes one sample of the keypad and applies the transition `step`.
    pub fn process_input(&mut self, key: K) -> (r: InputState<K>)
        requires
            old(self).wf(),
        ensures
            final(self).wf(),
            final(self)@ == step(old(self)@, key).0,
            r == step(old(self)@, key).1,
    {
        proof {
            K::equality_is_bitwise();
        }
        let mut ret = InputState::NotForMe(key);
        if key != self.last {
            let car = key.get_one_char();
            if car.is_some() && self.ready {
                let c = car.unwrap();
                self.ready = false;
                if self.cursor >= S || self.buffer[S - 1] != 0 {
                    ret = InputState::Overflow;
                } else {
                    let ghost entry = *self;
                    let mut i: usize = S - 1;
                    while i > self.cursor
                        invariant
                            self.cursor <= i <= S - 1,
                            *self == (InputBuffer { buffer: self.buffer, ..entry }),
                            forall|j: int| i < j < S ==> self.buffer@[j] == entry.buffer@[j - 1],
                            forall|j: int| 0 <= j <= i ==> self.buffer@[j] == entry.buffer@[j],
                        decreases i,
                    {
                        self.buffer[i] = self.buffer[i - 1];
                        i -= 1;
                    }
                    self.buffer[self.cursor] = c;
                    self.cursor += 1;
                    ret = InputState::Updated;
                    assert(self.buffer@ =~= insert_at(entry.buffer@, entry.cursor as int, c));
                }
            } else if key != K::empty() {
                if !self.ready {
                    ret = InputState::Overflow;
                }
                if key.get_text_modifiers() == key {
                    ret = InputState::Running(key);
                    self.ready = true;
                }
                if key == self.validate {
                    ret = InputState::Validated;
                } else if key == self.backspace {
                    if self.cursor == 0 {
                        ret = InputState::Overflow;
                    } else {
                        let ghost entry = *self;
                        let mut i: usize = self.cursor;
                        while i < S
                            invariant
                                1 <= self.cursor <= i <= S,
                                *self == (InputBuffer { buffer: self.buffer, ..entry }),
                                forall|j: int|
                                    entry.cursor - 1 <= j < i - 1 ==> self.buffer@[j]
                                        == entry.buffer@[j + 1],
                                forall|j: int|
                                    0 <= j < entry.cursor - 1 || i - 1 <= j < S ==> self.buffer@[j]
                                        == entry.buffer@[j],
                            decreases S - i,
                        {
                            self.buffer[i - 1] = self.buffer[i];
                            i += 1;
                        }
                        self.cursor -= 1;
                        self.buffer[S - 1] = 0;
                        ret = InputState::Updated;
                        assert(self.buffer@ =~= delete_before(entry.buffer@, entry.cursor as int));
                    }
                } else if key == self.left {
                    if self.cursor == 0 {
                        ret = InputState::Overflow;
                    } else {
                        self.cursor -= 1;
                        ret = InputState::Updated;
                    }
                } else if key == self.right {
                    if self.cursor >= S || self.buffer[self.cursor] == 0 {
                        ret = InputState::Overflow;
                    } else {
                        self.cursor += 1;
                        ret = InputState::Updated;
                    }
                }
            } else {
                ret = InputState::Running(key.get_text_modifiers());
                self.ready = true;
            }
        }
        self.last = key;
        ret
    }
}

} // verus!
