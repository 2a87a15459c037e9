//! The interactive picker over a ranked list of candidates, and the line it
//! hands to the enclosing shell.
//!
//! The picker is a state machine: the terminal loop feeds it one key at a
//! time and acts on the step it returns. The chosen command travels to the
//! shell as `MARKER`, the directory, `SEPARATOR`, then the command text; any
//! other output is plain text for the shell to show.

use vstd::prelude::*;
use vstd::string::StringExecFns;
use crate::text::{chars_of, starts_with_chars, starts_with_seq, string_of};

verus! {

/// The prefix that marks a line as a command for the shell to run.
pub const MARKER: &'static str = "__komando_run__:";

/// The character between the directory and the command text.
pub const SEPARATOR: &'static str = ";";

/// The line that asks the shell to run `cmd` in `dir`.
pub open spec fn payload(dir: Seq<char>, cmd: Seq<char>) -> Seq<char> {
    MARKER@ + dir + seq![';'] + cmd
}

/// The line that asks the shell to run `cmd` in `dir`.
pub fn bridge_payload(dir: &str, cmd: &str) -> (r: String)
    ensures
        r@ == payload(dir@, cmd@),
{
    proof {
        reveal_strlit(";");
    }
    let mut r = String::from_str(MARKER);
    r.append(dir);
    r.append(SEPARATOR);
    r.append(cmd);
    r
}

/// How the shell reads a line of output: `Some((dir, cmd))` when the line is
/// the payload of `dir` and `cmd` with no separator inside `dir`; `None` when
/// the line is text to show.
pub fn parse_payload(line: &str) -> (r: Option<(String, String)>)
    ensures
        match r {
            Some((d, c)) => line@ == payload(d@, c@) && !d@.contains(';'),
            None => forall|d: Seq<char>, c: Seq<char>|
                !(line@ == #[trigger] payload(d, c) && !d.contains(';')),
        },
{
    let v = chars_of(line);
    let mk = chars_of(MARKER);
    if !starts_with_chars(&v, &mk) {
        proof {
            assert forall|d: Seq<char>, c: Seq<char>| !(line@ == #[trigger] payload(d, c)
                && !d.contains(';')) by {
                if line@ == payload(d, c) {
                    assert(line@.subrange(0, mk@.len() as int) =~= mk@);
                }
            }
        }
        return None;
    }
    let m = mk.len();
    let mut j: usize = m;
    while j < v.len() && v[j] != ';'
        invariant
            m <= j <= v@.len(),
            forall|k: int| m <= k < j ==> v@[k] != ';',
        decreases v@.len() - j,
    {
        j += 1;
    }
    if j == v.len() {
        proof {
            assert forall|d: Seq<char>, c: Seq<char>| !(line@ == #[trigger] payload(d, c)
                && !d.contains(';')) by {
                if line@ == payload(d, c) {
                    assert(line@[m + d.len() as int] == ';');
                }
            }
        }
        return None;
    }
    let dir = string_of(&v, m, j);
    let cmd = string_of(&v, j + 1, v.len());
    proof {
        assert(v@.subrange(0, m as int) =~= mk@);
        assert(v@ =~= payload(dir@, cmd@));
        assert forall|k: int| 0 <= k < dir@.len() implies dir@[k] != ';' by {
            assert(dir@[k] == v@[m + k]);
        }
    }
    Some((dir, cmd))
}

/// A key press, as far as the picker cares.
#[derive(Debug, Clone, Copy, PartialEq, Eq, Structural)]
pub enum Key {
    Up,
    Down,
    Enter,
    Escape,
    Other,
}

/// What the picker asks for after a key.
#[derive(Debug, Clone, Copy, PartialEq, Eq, Structural)]
pub enum Step {
    /// Draw the list again and wait for the next key.
    Pending,
    /// The candidate at this index was chosen.
    Selected(usize),
    /// The user gave up; nothing is chosen.
    Cancelled,
}

/// The cursor after `key`, in a list of `len` candidates: it moves one step
/// up or down and stops at either end.
pub open spec fn next_cursor(cursor: int, len: int, key: Key) -> int {
    match key {
        Key::Up => if cursor > 0 {
            cursor - 1
        } else {
            0
        },
        Key::Down => if cursor + 1 < len {
            cursor + 1
        } else {
            cursor
        },
        _ => cursor,
    }
}

/// The step that `key` leads to with the cursor at `cursor`.
pub open spec fn step_for(cursor: usize, key: Key) -> Step {
    match key {
        Key::Enter => Step::Selected(cursor),
        Key::Escape => Step::Cancelled,
        _ => Step::Pending,
    }
}

/// The picker: a cursor over `len` candidates, `len` at least one.
pub struct Selector {
    cursor: usize,
    len: usize,
}

impl Selector {
    /// The cursor position.
    pub closed spec fn cursor_spec(&self) -> int {
        self.cursor as int
    }

    /// The number of candidates.
    pub closed spec fn len_spec(&self) -> int {
        self.len as int
    }

    /// The cursor lies on a candidate.
    pub open spec fn wf(&self) -> bool {
        0 <= self.cursor_spec() < self.len_spec()
    }

    /// A picker over `len` candidates with the cursor on the first.
    pub fn new(len: usize) -> (r: Selector)
        requires
            len > 0,
        ensures
            r.cursor_spec() == 0,
            r.len_spec() == len,
            r.wf(),
    {
        Selector { cursor: 0, len }
    }

    /// The index of the highlighted candidate.
    pub fn cursor(&self) -> (r: usize)
        ensures
            r == self.cursor_spec(),
    {
        self.cursor
    }

    /// The number of candidates.
    pub fn len(&self) -> (r: usize)
        ensures
            r == self.len_spec(),
    {
        self.len
    }

    /// Takes one key: Up and Down move the cursor and stop at the ends, Enter
    /// chooses the highlighted candidate, Escape gives up, and any other key
    /// is ignored.
    pub fn handle(&mut self, key: Key) -> (r: Step)
        requires
            old(self).wf(),
        ensures
            final(self).wf(),
            final(self).len_spec() == old(self).len_spec(),
            final(self).cursor_spec() == next_cursor(
                old(self).cursor_spec(),
                old(self).len_spec(),
                key,
            ),
            r == step_for(old(self).cursor_spec() as usize, key),
    {
        match key {
            Key::Up => {
                if self.cursor > 0 {
                    self.cursor = self.cursor - 1;
                }
                Step::Pending
            },
            Key::Down => {
                if self.cursor + 1 < self.len {
                    self.cursor = self.cursor + 1;
                }
                Step::Pending
            },
            Key::Enter => Step::Selected(self.cursor),
            Key::Escape => Step::Cancelled,
            Key::Other => Step::Pending,
        }
    }
}

/// The cursor never leaves the list: Up on the first candidate and Down on
/// the last leave it where it is, and no key moves it past either end.
pub proof fn lemma_cursor_stays_in_list(cursor: int, len: int, key: Key)
    requires
        0 <= cursor < len,
    ensures
        0 <= next_cursor(cursor, len, key) < len,
        next_cursor(0, len, Key::Up) == 0,
        next_cursor(len - 1, len, Key::Down) == len - 1,
{
}

/// The shell reads back exactly what was sent: two payloads whose
/// directories hold no separator are equal only when their directories and
/// commands are.
pub proof fn lemma_payload_round_trip(d1: Seq<char>, c1: Seq<char>, d2: Seq<char>, c2: Seq<char>)
    requires
        payload(d1, c1) == payload(d2, c2),
        !d1.contains(';'),
        !d2.contains(';'),
    ensures
        d1 == d2,
        c1 == c2,
{
    let m = MARKER@.len() as int;
    let p = payload(d1, c1);
    if d1.len() < d2.len() {
        assert(p[m + d1.len()] == ';');
        assert(payload(d2, c2)[m + d1.len()] == d2[d1.len() as int]);
    } else if d2.len() < d1.len() {
        assert(payload(d2, c2)[m + d2.len()] == ';');
        assert(p[m + d2.len()] == d1[d2.len() as int]);
    } else {
        assert(d1 =~= p.subrange(m as int, m + d1.len()));
        assert(d2 =~= payload(d2, c2).subrange(m as int, m + d2.len()));
        assert(c1 =~= p.subrange(m + d1.len() + 1, p.len() as int));
        assert(c2 =~= payload(d2, c2).subrange(m + d2.len() + 1, p.len() as int));
    }
}

} // verus!
