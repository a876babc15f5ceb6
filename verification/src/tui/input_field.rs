//! The line under edit: a buffer of lower-case letters and blanks that grows
//! and shrinks at its end.

use crate::text::{texts, words, words_of, Text};
use vstd::prelude::*;

verus! {

/// A key press, as far as the editor and the session tell keys apart.
#[derive(Clone, Copy, Debug, PartialEq, Eq, Structural)]
pub enum KeySignal {
    /// A character key.
    Char(char),
    Backspace,
    Escape,
    /// A character key with the control key held.
    Ctrl(char),
    /// Any other key.
    Other,
}

/// The characters that can be typed into the buffer: the lower-case letters
/// `a` to `z` and the blank.
pub open spec fn typed(c: char) -> bool {
    ('a' <= c && c <= 'z') || c == ' '
}

/// The buffer after a key: a character that can be typed is appended,
/// backspace removes the last character if there is one, and nothing else
/// changes the buffer.
pub open spec fn edited(buffer: Text, key: KeySignal) -> Text {
    match key {
        KeySignal::Char(c) => if typed(c) {
            buffer.push(c)
        } else {
            buffer
        },
        KeySignal::Backspace => if buffer.len() > 0 {
            buffer.drop_last()
        } else {
            buffer
        },
        _ => buffer,
    }
}

/// The line under edit.
#[derive(Debug)]
pub struct InputField(String);

impl View for InputField {
    type V = Text;

    closed spec fn view(&self) -> Text {
        self.0@
    }
}

impl InputField {
    #[verifier::type_invariant]
    spec fn inv(&self) -> bool {
        forall|i: int| 0 <= i < self.0@.len() ==> typed(#[trigger] self.0@[i])
    }

    /// An empty line.
    pub fn new() -> (r: Self)
        ensures
            r@ == Seq::<char>::empty(),
    {
        InputField(String::new())
    }

    /// Applies one key to the line.
    pub fn receive_event(&mut self, key: KeySignal)
        ensures
            final(self)@ == edited(old(self)@, key),
    {
        proof {
            use_type_invariant(&*self);
        }
        let mut buffer = String::new();
        std::mem::swap(&mut buffer, &mut self.0);
        match key {
            KeySignal::Char(ch) => {
                if (ch >= 'a' && ch <= 'z') || ch == ' ' {
                    buffer.push(ch);
                }
            },
            KeySignal::Backspace => {
                buffer.pop();
            },
            _ => (),
        }
        self.0 = buffer;
    }

    /// The line as it stands. It holds nothing but characters that can be
    /// typed.
    pub fn get_value(&self) -> (r: &str)
        ensures
            r@ == self@,
            forall|i: int| 0 <= i < r@.len() ==> typed(#[trigger] r@[i]),
    {
        proof {
            use_type_invariant(self);
        }
        self.0.as_str()
    }

    /// The words of the line: its maximal runs of letters, left to right.
    pub fn get_split_value(&self) -> (r: Vec<&str>)
        ensures
            texts(r@) == words(self@),
    {
        words_of(self.get_value())
    }
}

} // verus!
