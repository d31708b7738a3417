//! The text-input collaborator: a cursor and a line of text, driven by key
//! events.  Edits are reported to an `InputReceiver`, which turns them into
//! sequence-CRDT commands.  Reading keys and drawing the line belong to the
//! terminal layer around the library.

use vstd::prelude::*;

verus! {

/// Receives the edits the user makes, one callback per keystroke.
pub trait InputReceiver: Sized {
    /// What `insert_at` does to the receiver.
    spec fn insert_ens(pre: Self, post: Self, position: usize, character: char) -> bool;

    /// What `remove_at` does to the receiver.
    spec fn remove_ens(pre: Self, post: Self, position: usize) -> bool;

    /// `character` was typed at `position`.
    fn insert_at(&mut self, position: usize, character: char)
        ensures
            Self::insert_ens(*old(self), *final(self), position, character),
    ;

    /// The character before `position` was erased.
    fn remove_at(&mut self, position: usize)
        ensures
            Self::remove_ens(*old(self), *final(self), position),
    ;
}

/// A key event, as the terminal layer reports it.
#[derive(Clone, Copy, PartialEq, Eq, Structural, Debug)]
pub enum InputKey {
    Left,
    Right,
    Character(char),
    Backspace,
}

/// The state of the input line: the text and the cursor within it.
pub struct InputField {
    cursor_position: usize,
    value: Vec<char>,
}

impl InputField {
    /// The text held.
    pub closed spec fn text(&self) -> Seq<char> {
        self.value@
    }

    /// The cursor, between 0 and the text length.
    pub closed spec fn cursor(&self) -> int {
        self.cursor_position as int
    }

    /// The cursor never points past the end of the text.
    pub open spec fn wf(&self) -> bool {
        0 <= self.cursor() <= self.text().len()
    }

    /// An input field over `value`, cursor at the start.
    pub fn start(value: Vec<char>) -> (r: InputField)
        ensures
            r.text() == value@,
            r.cursor() == 0,
            r.wf(),
    {
        InputField { cursor_position: 0, value }
    }

    /// The current text, copied out.
    pub fn text_chars(&self) -> (r: Vec<char>)
        ensures
            r@ == self.text(),
    {
        let n = self.value.len();
        let mut out: Vec<char> = Vec::new();
        let mut i: usize = 0;
        while i < n
            invariant
                n == self.value.len(),
                0 <= i <= n,
                out@ =~= self.value@.take(i as int),
            decreases n - i,
        {
            out.push(self.value[i]);
            i = i + 1;
        }
        proof {
            assert(out@ =~= self.value@);
        }
        out
    }

    /// Where the cursor stands.
    pub fn cursor_index(&self) -> (r: usize)
        ensures
            r == self.cursor(),
    {
        self.cursor_position
    }

    /// Applies one key: arrows move the cursor, a character is inserted at
    /// the cursor, backspace erases the character before it.  Edits are
    /// reported to `receiver` before the field changes.
    pub fn apply_key<R: InputReceiver>(&mut self, key: InputKey, receiver: &mut R)
        requires
            old(self).wf(),
            old(self).text().len() < usize::MAX,
        ensures
            final(self).wf(),
            match key {
                InputKey::Left => {
                    &&& final(self).text() == old(self).text()
                    &&& final(self).cursor() == (if old(self).cursor() > 0 {
                        old(self).cursor() - 1
                    } else {
                        0int
                    })
                    &&& *final(receiver) == *old(receiver)
                },
                InputKey::Right => {
                    &&& final(self).text() == old(self).text()
                    &&& final(self).cursor() == (if old(self).cursor() < old(
                        self,
                    ).text().len() {
                        old(self).cursor() + 1
                    } else {
                        old(self).cursor()
                    })
                    &&& *final(receiver) == *old(receiver)
                },
                InputKey::Character(c) => {
                    &&& final(self).text() == old(self).text().insert(old(self).cursor(), c)
                    &&& final(self).cursor() == old(self).cursor() + 1
                    &&& R::insert_ens(
                        *old(receiver),
                        *final(receiver),
                        old(self).cursor() as usize,
                        c,
                    )
                },
                InputKey::Backspace => {
                    if old(self).cursor() > 0 {
                        &&& final(self).text() == old(self).text().remove(
                            old(self).cursor() - 1,
                        )
                        &&& final(self).cursor() == old(self).cursor() - 1
                        &&& R::remove_ens(
                            *old(receiver),
                            *final(receiver),
                            old(self).cursor() as usize,
                        )
                    } else {
                        &&& final(self).text() == old(self).text()
                        &&& final(self).cursor() == 0
                        &&& *final(receiver) == *old(receiver)
                    }
                },
            },
    {
        match key {
            InputKey::Left => {
                if self.cursor_position > 0 {
                    self.cursor_position = self.cursor_position - 1;
                }
            },
            InputKey::Right => {
                if self.cursor_position < self.value.len() {
                    self.cursor_position = self.cursor_position + 1;
                }
            },
            InputKey::Character(c) => {
                receiver.insert_at(self.cursor_position, c);
                self.value.insert(self.cursor_position, c);
                self.cursor_position = self.cursor_position + 1;
            },
            InputKey::Backspace => {
                if self.cursor_position > 0 {
                    receiver.remove_at(self.cursor_position);
                    self.value.remove(self.cursor_position - 1);
                    self.cursor_position = self.cursor_position - 1;
                }
            },
        }
    }
}

} // verus!
