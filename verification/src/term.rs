//! Keys as terminals send them.
//!
//! One parser serves every platform: arrow keys arrive as control sequences, the letters of vim
//! move, jump and quit.

use vstd::prelude::*;

use crate::number::parse_usize;
use crate::text::{chars_of, words};

verus! {

/// What a key press means.
#[derive(Clone, Copy, PartialEq, Eq, Debug, Structural)]
pub enum Key {
    Up,
    Down,
    Left,
    Right,
    Enter,
    /// Marks and unmarks in lists; never starts an action.
    Space,
    Quit,
    Top,
    Bottom,
    PageUp,
    PageDown,
    Number(u8),
    Other,
}

/// How far a key press has been read.
#[derive(Clone, Copy, PartialEq, Eq, Debug, Structural)]
pub enum KeyState {
    /// Nothing was read.
    Start,
    /// An escape was read.
    Escape,
    /// An escape and a bracket were read.
    Sequence,
    /// The key is known; one byte more belongs to it.
    Tail(Key),
}

/// What reading one more byte comes to.
#[derive(Clone, Copy, PartialEq, Eq, Debug, Structural)]
pub enum KeyStep {
    /// One byte more is needed.
    More(KeyState),
    /// The key press is complete.
    Done(Key),
}

/// The key of a single byte; an escape begins a sequence and has none.
pub open spec fn plain_key(b: u8) -> Key {
    if b == 113 || b == 0x03 || b == 0x04 {
        Key::Quit
    } else if b == 106 {
        Key::Down
    } else if b == 107 {
        Key::Up
    } else if b == 104 || b == 117 {
        Key::Left
    } else if b == 108 {
        Key::Right
    } else if b == 103 {
        Key::Top
    } else if b == 71 {
        Key::Bottom
    } else if b == 0x15 {
        Key::PageUp
    } else if b == 0x06 {
        Key::PageDown
    } else if b == 13 || b == 10 {
        Key::Enter
    } else if b == 32 {
        Key::Space
    } else if 49 <= b <= 57 {
        Key::Number((b - 48) as u8)
    } else {
        Key::Other
    }
}

/// The key that the byte behind escape and bracket stands for.
pub open spec fn sequence_key(b: u8) -> Key {
    if b == 65 {
        Key::Up
    } else if b == 66 {
        Key::Down
    } else if b == 67 {
        Key::Right
    } else if b == 68 {
        Key::Left
    } else if b == 72 {
        Key::Top
    } else if b == 70 {
        Key::Bottom
    } else if b == 53 {
        Key::PageUp
    } else if b == 54 {
        Key::PageDown
    } else {
        Key::Other
    }
}

/// The key that a stream of bytes begins with, and how many bytes it takes. The end of the stream
/// quits, and so does an escape that no bracket follows, which takes the byte behind it along.
pub open spec fn key_in(s: Seq<u8>) -> (Key, int) {
    if s.len() == 0 {
        (Key::Quit, 0)
    } else if s[0] != 0x1b {
        (plain_key(s[0]), 1)
    } else if s.len() == 1 {
        (Key::Quit, 1)
    } else if s[1] != 91 {
        (Key::Quit, 2)
    } else if s.len() == 2 {
        (Key::Other, 2)
    } else if s[2] == 53 || s[2] == 54 {
        (
            sequence_key(s[2]),
            if s.len() > 3 {
                4
            } else {
                3
            },
        )
    } else {
        (sequence_key(s[2]), 3)
    }
}

/// What the bytes so far mean, by the state of reading.
pub open spec fn state_of(s: Seq<u8>) -> KeyState {
    if s.len() == 0 {
        KeyState::Start
    } else if s.len() == 1 {
        KeyState::Escape
    } else if s.len() == 2 {
        KeyState::Sequence
    } else {
        KeyState::Tail(sequence_key(s[2]))
    }
}

/// The bytes so far are the front of a key press that is not complete.
pub open spec fn is_open(s: Seq<u8>) -> bool {
    &&& s.len() <= 3
    &&& s.len() > 0 ==> s[0] == 0x1b
    &&& s.len() > 1 ==> s[1] == 91
    &&& s.len() > 2 ==> s[2] == 53 || s[2] == 54
}

/// What reading one more byte comes to; `None` is the end of the stream.
pub open spec fn key_step(state: KeyState, byte: Option<u8>) -> KeyStep {
    match state {
        KeyState::Start => match byte {
            None => KeyStep::Done(Key::Quit),
            Some(b) => if b == 0x1b {
                KeyStep::More(KeyState::Escape)
            } else {
                KeyStep::Done(plain_key(b))
            },
        },
        KeyState::Escape => match byte {
            None => KeyStep::Done(Key::Quit),
            Some(b) => if b == 91 {
                KeyStep::More(KeyState::Sequence)
            } else {
                KeyStep::Done(Key::Quit)
            },
        },
        KeyState::Sequence => match byte {
            None => KeyStep::Done(Key::Other),
            Some(b) => if b == 53 || b == 54 {
                KeyStep::More(KeyState::Tail(sequence_key(b)))
            } else {
                KeyStep::Done(sequence_key(b))
            },
        },
        KeyState::Tail(k) => KeyStep::Done(k),
    }
}

fn plain_key_of(b: u8) -> (r: Key)
    ensures
        r == plain_key(b),
{
    if b == 113 || b == 0x03 || b == 0x04 {
        Key::Quit
    } else if b == 106 {
        Key::Down
    } else if b == 107 {
        Key::Up
    } else if b == 104 || b == 117 {
        Key::Left
    } else if b == 108 {
        Key::Right
    } else if b == 103 {
        Key::Top
    } else if b == 71 {
        Key::Bottom
    } else if b == 0x15 {
        Key::PageUp
    } else if b == 0x06 {
        Key::PageDown
    } else if b == 13 || b == 10 {
        Key::Enter
    } else if b == 32 {
        Key::Space
    } else if 49 <= b && b <= 57 {
        Key::Number(b - 48)
    } else {
        Key::Other
    }
}

fn sequence_key_of(b: u8) -> (r: Key)
    ensures
        r == sequence_key(b),
{
    if b == 65 {
        Key::Up
    } else if b == 66 {
        Key::Down
    } else if b == 67 {
        Key::Right
    } else if b == 68 {
        Key::Left
    } else if b == 72 {
        Key::Top
    } else if b == 70 {
        Key::Bottom
    } else if b == 53 {
        Key::PageUp
    } else if b == 54 {
        Key::PageDown
    } else {
        Key::Other
    }
}

/// Takes one more byte of a key press; `None` is the end of the stream.
pub fn next_key(state: KeyState, byte: Option<u8>) -> (r: KeyStep)
    ensures
        r == key_step(state, byte),
{
    match state {
        KeyState::Start => match byte {
            None => KeyStep::Done(Key::Quit),
            Some(b) => if b == 0x1b {
                KeyStep::More(KeyState::Escape)
            } else {
                KeyStep::Done(plain_key_of(b))
            },
        },
        KeyState::Escape => match byte {
            None => KeyStep::Done(Key::Quit),
            Some(b) => if b == 91 {
                KeyStep::More(KeyState::Sequence)
            } else {
                KeyStep::Done(Key::Quit)
            },
        },
        KeyState::Sequence => match byte {
            None => KeyStep::Done(Key::Other),
            Some(b) => if b == 53 || b == 54 {
                KeyStep::More(KeyState::Tail(sequence_key_of(b)))
            } else {
                KeyStep::Done(sequence_key_of(b))
            },
        },
        KeyState::Tail(k) => KeyStep::Done(k),
    }
}

/// The key that a stream of bytes begins with, and how many bytes it takes.
pub fn read_key(input: &[u8]) -> (r: (Key, usize))
    ensures
        r.0 == key_in(input@).0,
        r.1 == key_in(input@).1,
{
    let mut state = KeyState::Start;
    let mut i: usize = 0;
    loop
        invariant
            i <= input@.len(),
            is_open(input@.take(i as int)),
            state == state_of(input@.take(i as int)),
        decreases 4 - i,
    {
        let byte = if i < input.len() {
            Some(input[i])
        } else {
            None
        };
        match next_key(state, byte) {
            KeyStep::Done(k) => {
                let used = if i < input.len() {
                    i + 1
                } else {
                    i
                };
                return (k, used);
            },
            KeyStep::More(s) => {
                state = s;
                i = i + 1;
            },
        }
    }
}

/// How many rows the terminal has, by what the size query printed: its first word. 24 where there is
/// none.
pub open spec fn rows_printed(text: Option<Seq<char>>) -> nat {
    match text {
        Some(t) => {
            let w = crate::text::words_of(t);
            if w.len() > 0 {
                match crate::number::parsed_number(w[0], usize::MAX as nat) {
                    Some(n) => n,
                    None => 24,
                }
            } else {
                24
            }
        },
        None => 24,
    }
}

/// How many rows the terminal has, by what the size query printed.
pub fn term_rows(printed: Option<&str>) -> (r: usize)
    ensures
        r == rows_printed(
            match printed {
                Some(t) => Some(t@),
                None => None,
            },
        ),
{
    match printed {
        None => 24,
        Some(t) => {
            let w = words(chars_of(t).as_slice());
            if w.len() == 0 {
                return 24;
            }
            assert(crate::text::rows(w@)[0] == w@[0]@);
            match parse_usize(w[0].as_slice()) {
                Some(n) => n,
                None => 24,
            }
        },
    }
}

// ---------------------------------------------------------------------------
// Laws
// ---------------------------------------------------------------------------

/// Reading byte by byte gives the key of the stream: where the bytes so far are open, the next byte
/// either completes the key press that the whole stream begins with, or leaves it open.
pub proof fn byte_by_byte_gives_the_same_key(s: Seq<u8>, i: int)
    requires
        0 <= i <= s.len(),
        is_open(s.take(i)),
    ensures
        ({
            let byte = if i < s.len() {
                Some(s[i])
            } else {
                None
            };
            match key_step(state_of(s.take(i)), byte) {
                KeyStep::Done(k) => k == key_in(s).0,
                KeyStep::More(next) => i < s.len() && is_open(s.take(i + 1)) && next == state_of(
                    s.take(i + 1),
                ),
            }
        }),
{
}

/// The space bar never stands for Enter: in a list where Enter starts an action, only the line end
/// keys do.
pub proof fn only_line_ends_are_enter(s: Seq<u8>)
    ensures
        key_in(s).0 == Key::Enter <==> s.len() > 0 && (s[0] == 13 || s[0] == 10),
{
}

/// The arrow keys, Home, End and the keys for pages do what the letters of the keyboard do, whatever
/// follows them: `k`, `j`, `l` and `h` move as the arrows, `g` and `G` as Home and End, and Ctrl-U and
/// Ctrl-F as the keys for pages. `q`, Ctrl-C, Ctrl-D and Escape quit.
pub proof fn letters_move_as_arrows_do(rest: Seq<u8>)
    ensures
        key_in(seq![0x6bu8] + rest).0 == Key::Up,
        key_in(seq![0x6au8] + rest).0 == Key::Down,
        key_in(seq![0x6cu8] + rest).0 == Key::Right,
        key_in(seq![0x68u8] + rest).0 == Key::Left,
        key_in(seq![0x75u8] + rest).0 == Key::Left,
        key_in(seq![0x67u8] + rest).0 == Key::Top,
        key_in(seq![0x47u8] + rest).0 == Key::Bottom,
        key_in(seq![0x15u8] + rest).0 == Key::PageUp,
        key_in(seq![0x06u8] + rest).0 == Key::PageDown,
        key_in(seq![0x20u8] + rest).0 == Key::Space,
        key_in(seq![0x0du8] + rest).0 == Key::Enter,
        key_in(seq![0x0au8] + rest).0 == Key::Enter,
        key_in(seq![0x71u8] + rest).0 == Key::Quit,
        key_in(seq![0x03u8] + rest).0 == Key::Quit,
        key_in(seq![0x04u8] + rest).0 == Key::Quit,
        key_in(seq![0x1bu8, 0x5bu8, 0x41u8] + rest).0 == Key::Up,
        key_in(seq![0x1bu8, 0x5bu8, 0x42u8] + rest).0 == Key::Down,
        key_in(seq![0x1bu8, 0x5bu8, 0x43u8] + rest).0 == Key::Right,
        key_in(seq![0x1bu8, 0x5bu8, 0x44u8] + rest).0 == Key::Left,
        key_in(seq![0x1bu8, 0x5bu8, 0x48u8] + rest).0 == Key::Top,
        key_in(seq![0x1bu8, 0x5bu8, 0x46u8] + rest).0 == Key::Bottom,
        key_in(seq![0x1bu8, 0x5bu8, 0x35u8, 0x7eu8] + rest) == (Key::PageUp, 4int),
        key_in(seq![0x1bu8, 0x5bu8, 0x36u8, 0x7eu8] + rest) == (Key::PageDown, 4int),
        key_in(seq![0x1bu8]).0 == Key::Quit,
        key_in(seq![]).0 == Key::Quit,
        forall|d: u8|
            0x31 <= d <= 0x39 ==> #[trigger] key_in(seq![d] + rest) == (
                Key::Number((d - 0x30) as u8),
                1int,
            ),
{
    assert forall|d: u8| 0x31 <= d <= 0x39 implies #[trigger] key_in(seq![d] + rest) == (
        Key::Number((d - 0x30) as u8),
        1int,
    ) by {
        assert((seq![d] + rest)[0] == d);
    }
}

} // verus!
