//! An error that carries where it was raised: file, line, function and a note.
use vstd::prelude::*;

use crate::text::{decimal, decimal_text};

verus! {

/// Right-aligns the text in a field of three characters.
pub open spec fn right_aligned3(s: Seq<char>) -> Seq<char> {
    if s.len() >= 3 {
        s
    } else {
        Seq::new((3 - s.len()) as nat, |i: int| ' ') + s
    }
}

/// The message of an error raised at `file:line` in `func`, with a note.
pub open spec fn error_line(file: Seq<char>, line: nat, func: Seq<char>, text: Seq<char>) -> Seq<char> {
    "Error: "@ + file + ":"@ + right_aligned3(decimal(line)) + " "@ + func + "() "@ + text
}

/// An error with its place of origin.
pub struct MoreError {
    text: String,
}

impl View for MoreError {
    type V = Seq<char>;

    closed spec fn view(&self) -> Seq<char> {
        self.text@
    }
}

impl MoreError {
    /// An error raised at `file:line` in `func`, with a note:
    /// `Error: file:line func() text`, the line right-aligned in three columns.
    pub fn new(file: &str, line: u32, func: &str, text: &str) -> (r: Self)
        ensures
            r@ == error_line(file@, line as nat, func@, text@),
    {
        let number = decimal_text(line as usize);
        let mut s = String::from_str("Error: ");
        s.append(file);
        s.append(":");
        let mut pad: usize = number.as_str().unicode_len();
        let ghost spaces: Seq<char> = seq![];
        while pad < 3
            invariant
                number@ == decimal(line as nat),
                pad == number@.len() + spaces.len(),
                pad <= 3 || spaces.len() == 0,
                s@ == "Error: "@ + file@ + ":"@ + spaces,
                forall|i: int| 0 <= i < spaces.len() ==> spaces[i] == ' ',
            decreases 3 - pad,
        {
            s.append(" ");
            proof {
                reveal_strlit(" ");
                spaces = spaces.push(' ');
            }
            pad += 1;
        }
        s.append(number.as_str());
        s.append(" ");
        s.append(func);
        s.append("() ");
        s.append(text);
        proof {
            reveal_strlit(" ");
            let d = decimal(line as nat);
            if d.len() < 3 {
                assert(spaces =~= Seq::new((3 - d.len()) as nat, |i: int| ' '));
            } else {
                assert(spaces =~= seq![]);
            }
            assert(s@ =~= error_line(file@, line as nat, func@, text@));
        }
        MoreError { text: s }
    }

    /// An error raised at `file:line` in `func`, on top of an earlier one whose
    /// message follows on the next line.
    pub fn from_more(err: &MoreError, file: &str, line: u32, func: &str, text: &str) -> (r: Self)
        ensures
            r@ == error_line(file@, line as nat, func@, text@) + "\n"@ + err@,
    {
        MoreError::new(file, line, func, text).with_cause(err.text.as_str())
    }

    /// The error with a cause appended on the next line.
    pub fn with_cause(self, cause: &str) -> (r: Self)
        ensures
            r@ == self@ + "\n"@ + cause@,
    {
        let mut text = self.text;
        text.append("\n");
        text.append(cause);
        MoreError { text }
    }

    /// An error whose message is the given text.
    pub fn from_text(text: &str) -> (r: Self)
        ensures
            r@ == text@,
    {
        MoreError { text: String::from_str(text) }
    }

    /// The message.
    pub fn text(&self) -> (r: String)
        ensures
            r@ == self@,
    {
        self.text.clone()
    }
}

} // verus!
