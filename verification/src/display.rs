//! What goes to the terminal and what comes from it: the lines of the
//! summary, and the requests that are typed.

use crate::summary::{Row, RowView};
use crate::util::{
    decimal, decimal_width, filesize_text, left_justified, push_decimal, push_spaces, Filesize,
};
use vstd::prelude::*;
use vstd::string::*;

verus! {

/// Width of a rendered byte count.
pub const SIZE_WIDTH: usize = 9;

/// Columns of a line that the counters and what stands between them take.
pub const RESERVED_COLUMNS: usize = 48;

/// The number of decimal digits of `n`.
pub fn int_width(n: usize) -> (w: usize)
    ensures
        w == decimal(n as nat).len(),
        1 <= w <= 39,
{
    decimal_width(n as u128)
}

/// The columns that are left for the title on a terminal of `cols` columns.
pub fn target_width(cols: usize) -> (w: usize)
    ensures
        w == if cols > RESERVED_COLUMNS {
            cols - RESERVED_COLUMNS
        } else {
            0
        },
{
    cols.saturating_sub(RESERVED_COLUMNS)
}

/// The first `n` characters of `text`, or all of it if it has fewer.
pub open spec fn truncated(text: Seq<char>, n: int) -> Seq<char> {
    if n <= 0 {
        Seq::empty()
    } else if n < text.len() {
        text.take(n)
    } else {
        text
    }
}

/// The title of a row: the host name cut to `width` characters for a
/// single flow; for more flows the host name cut so as to leave room for
/// the mark that follows it, a space, an `x` and the number of flows.
pub open spec fn title_text(host: Seq<char>, count: nat, width: nat) -> Seq<char> {
    if count == 1 {
        truncated(host, width as int)
    } else {
        truncated(host, width - 2 - decimal(count).len()) + seq![' ', 'x'] + decimal(count)
    }
}

/// A line of the summary: the title in `width` columns, then the bytes
/// sent and received in the epoch and the bytes sent and received in all,
/// each in nine columns and followed by its mark.
pub open spec fn row_text(row: RowView, width: nat) -> Seq<char> {
    left_justified(title_text(row.hostname, row.count, width), width as int) + seq![' ']
        + filesize_text(row.sent, SIZE_WIDTH as nat) + seq!['/', 's', '\u{2191}', ' ']
        + filesize_text(row.received, SIZE_WIDTH as nat) + seq!['/', 's', '\u{2193}', ' ']
        + filesize_text(row.total_sent, SIZE_WIDTH as nat) + seq!['\u{2191}', ' ']
        + filesize_text(row.total_received, SIZE_WIDTH as nat) + seq!['\u{2193}']
}

/// The first `n` characters of `text`.
fn cut(text: &str, n: usize) -> (r: &str)
    ensures
        r@ == truncated(text@, n as int),
{
    let len = text.unicode_len();
    if n < len {
        let r = text.substring_char(0, n);
        assert(r@ =~= truncated(text@, n as int));
        r
    } else {
        text
    }
}

impl Row {
    /// The title of the row in `width` columns: see [`title_text`].
    pub fn title(&self, width: usize) -> (title: String)
        ensures
            title@ == title_text(self@.hostname, self@.count, width as nat),
    {
        if self.count == 1 {
            String::from_str(cut(self.hostname.as_str(), width))
        } else {
            let reserved = 2 + int_width(self.count);
            let mut title = String::from_str(
                cut(self.hostname.as_str(), width.saturating_sub(reserved)),
            );
            proof {
                reveal_strlit(" x");
            }
            title.append(" x");
            push_decimal(&mut title, self.count as u128);
            assert(title@ =~= title_text(self@.hostname, self@.count, width as nat));
            title
        }
    }

    /// The line of the row, with the title in `width` columns: see
    /// [`row_text`].
    pub fn render(&self, width: usize) -> (line: String)
        ensures
            line@ == row_text(self@, width as nat),
    {
        let mut line = self.title(width);
        let len = line.as_str().unicode_len();
        if width > len {
            push_spaces(&mut line, width - len);
        }
        assert(line@ =~= left_justified(
            title_text(self@.hostname, self@.count, width as nat),
            width as int,
        ));
        proof {
            reveal_strlit(" ");
            reveal_strlit("/s\u{2191} ");
            reveal_strlit("/s\u{2193} ");
            reveal_strlit("\u{2191} ");
            reveal_strlit("\u{2193}");
        }
        line.append(" ");
        line.append(Filesize(self.sent).to_text(SIZE_WIDTH).as_str());
        line.append("/s\u{2191} ");
        line.append(Filesize(self.received).to_text(SIZE_WIDTH).as_str());
        line.append("/s\u{2193} ");
        line.append(Filesize(self.total_sent).to_text(SIZE_WIDTH).as_str());
        line.append("\u{2191} ");
        line.append(Filesize(self.total_received).to_text(SIZE_WIDTH).as_str());
        line.append("\u{2193}");
        assert(line@ =~= row_text(self@, width as nat));
        line
    }
}

/// The octet that asks to quit.
pub const CTRL_C: u8 = 3;

/// The octet that asks to draw the screen anew.
pub const CTRL_L: u8 = 12;

/// Whether the input holds a request to quit, and whether it holds a
/// request to draw the screen anew.
pub fn scan_input(input: &[u8]) -> (r: (bool, bool))
    ensures
        r.0 == input@.contains(CTRL_C),
        r.1 == input@.contains(CTRL_L),
{
    let mut ctrl_c = false;
    let mut ctrl_l = false;
    let mut i: usize = 0;
    while i < input.len()
        invariant
            i <= input.len(),
            ctrl_c == input@.take(i as int).contains(CTRL_C),
            ctrl_l == input@.take(i as int).contains(CTRL_L),
        decreases input.len() - i,
    {
        let ghost seen = input@.take(i as int);
        let ghost next = input@.take(i + 1);
        assert(next =~= seen.push(input@[i as int]));
        assert(forall|x: u8| next.contains(x) <==> seen.contains(x) || x == input@[i as int]) by {
            assert forall|x: u8| seen.contains(x) || x == input@[i as int] implies next.contains(
                x,
            ) by {
                if seen.contains(x) {
                    let j = choose|j: int| 0 <= j < seen.len() && seen[j] == x;
                    assert(next[j] == x);
                } else {
                    assert(next[i as int] == x);
                }
            }
        }
        if input[i] == CTRL_C {
            ctrl_c = true;
        } else if input[i] == CTRL_L {
            ctrl_l = true;
        }
        i += 1;
    }
    assert(input@.take(i as int) == input@);
    (ctrl_c, ctrl_l)
}

/// What the drawing loop does after an epoch.
#[derive(Clone, Copy, Debug, PartialEq, Eq, Structural)]
pub enum Action {
    /// Restore the terminal and end the process.
    Quit,
    /// Ask for the terminal's width and draw on a cleared screen.
    Redraw,
    /// Go on as before.
    Wait,
}

/// A request to quit comes before everything; the screen is drawn anew on
/// request and when the terminal was resized.
pub open spec fn reaction(input: Seq<u8>, resized: bool) -> Action {
    if input.contains(CTRL_C) {
        Action::Quit
    } else if input.contains(CTRL_L) || resized {
        Action::Redraw
    } else {
        Action::Wait
    }
}

/// What to do after an epoch in which `input` was typed, and in which the
/// terminal was resized if `resized`.
pub fn next_action(input: &[u8], resized: bool) -> (action: Action)
    ensures
        action == reaction(input@, resized),
{
    let (ctrl_c, ctrl_l) = scan_input(input);
    if ctrl_c {
        Action::Quit
    } else if ctrl_l || resized {
        Action::Redraw
    } else {
        Action::Wait
    }
}

} // verus!
