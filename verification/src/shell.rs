//! The serial shell: line editing of the bytes typed on the console, and the
//! commands a finished line names.
use vstd::prelude::*;

verus! {

use vstd::utf8::{valid_utf8, decode_utf8};

/// Bytes a line can hold.
pub const LINE_CAPACITY: usize = 128;

/// Backspace.
pub const BACKSPACE: u8 = 0x08;

/// Delete, sent by many terminals for the backspace key.
pub const DELETE: u8 = 0x7f;

/// Whether a byte ends a line: carriage return or line feed.
pub open spec fn ends_line(byte: u8) -> bool {
    byte == 0x0d || byte == 0x0a
}

/// Whether a byte erases the last one typed: backspace or delete.
pub open spec fn erases(byte: u8) -> bool {
    byte == BACKSPACE || byte == DELETE
}

/// What the console does in answer to a typed byte.
pub enum KeyAction {
    /// The line is finished: echo a line feed and run the line as a command.
    Submit(Vec<u8>),
    /// The last byte was erased: echo backspace, space, backspace.
    Erase,
    /// The byte was added to the line: echo it.
    Echo(u8),
    /// Nothing to do.
    Ignore,
}

/// The line being typed.
pub struct LineEditor {
    buffer: Vec<u8>,
}

impl LineEditor {
    /// The bytes typed so far.
    pub closed spec fn line(self) -> Seq<u8> {
        self.buffer@
    }

    /// The editor's invariant: the line fits its capacity.
    pub open spec fn wf(self) -> bool {
        self.line().len() <= LINE_CAPACITY
    }

    /// An empty line.
    pub fn new() -> (editor: Self)
        ensures
            editor.wf(),
            editor.line() == Seq::<u8>::empty(),
    {
        LineEditor { buffer: Vec::new() }
    }

    /// Takes one typed byte. A carriage return or line feed finishes the line and
    /// starts an empty one; backspace or delete erases the last byte if there is
    /// one; any other byte is added if the line has room.
    pub fn feed(&mut self, byte: u8) -> (action: KeyAction)
        requires
            old(self).wf(),
        ensures
            final(self).wf(),
            ends_line(byte) ==> final(self).line() == Seq::<u8>::empty() && match action {
                KeyAction::Submit(line) => line@ == old(self).line(),
                _ => false,
            },
            !ends_line(byte) && erases(byte) ==> if old(self).line().len() > 0 {
                action is Erase && final(self).line() == old(self).line().drop_last()
            } else {
                action is Ignore && final(self).line() == old(self).line()
            },
            !ends_line(byte) && !erases(byte) ==> if old(self).line().len() < LINE_CAPACITY {
                action == KeyAction::Echo(byte) && final(self).line() == old(self).line().push(byte)
            } else {
                action is Ignore && final(self).line() == old(self).line()
            },
    {
        if byte == 0x0d || byte == 0x0a {
            let mut line: Vec<u8> = Vec::new();
            core::mem::swap(&mut line, &mut self.buffer);
            KeyAction::Submit(line)
        } else if byte == BACKSPACE || byte == DELETE {
            if self.buffer.len() > 0 {
                let _ = self.buffer.pop();
                KeyAction::Erase
            } else {
                KeyAction::Ignore
            }
        } else {
            if self.buffer.len() < LINE_CAPACITY {
                self.buffer.push(byte);
                KeyAction::Echo(byte)
            } else {
                KeyAction::Ignore
            }
        }
    }
}

/// A command line's meaning.
pub enum Command {
    /// The bytes are not UTF-8 text.
    Invalid,
    /// The line holds only white space.
    Empty,
    /// `help`: list the commands.
    Help,
    /// `version`: show the version.
    Version,
    /// `echo`: print the rest of the line.
    Echo(Vec<char>),
    /// `clear`: clear the screen.
    Clear,
    /// `panic`: stop the kernel.
    Panic,
    /// Any other first word.
    Unknown(Vec<char>),
}

/// A command line's meaning, with text as character sequences.
pub enum CommandView {
    Invalid,
    Empty,
    Help,
    Version,
    Echo(Seq<char>),
    Clear,
    Panic,
    Unknown(Seq<char>),
}

impl View for Command {
    type V = CommandView;

    open spec fn view(&self) -> CommandView {
        match self {
            Command::Invalid => CommandView::Invalid,
            Command::Empty => CommandView::Empty,
            Command::Help => CommandView::Help,
            Command::Version => CommandView::Version,
            Command::Echo(rest) => CommandView::Echo(rest@),
            Command::Clear => CommandView::Clear,
            Command::Panic => CommandView::Panic,
            Command::Unknown(word) => CommandView::Unknown(word@),
        }
    }
}

/// Unicode white space: the characters with the `White_Space` property.
pub open spec fn is_space(c: char) -> bool {
    let u = c as u32;
    ||| 0x09 <= u <= 0x0d
    ||| u == 0x20
    ||| u == 0x85
    ||| u == 0xa0
    ||| u == 0x1680
    ||| 0x2000 <= u <= 0x200a
    ||| u == 0x2028
    ||| u == 0x2029
    ||| u == 0x202f
    ||| u == 0x205f
    ||| u == 0x3000
}

/// ASCII white space: space, tab, line feed, form feed and carriage return.
pub open spec fn is_ascii_space(c: char) -> bool {
    let u = c as u32;
    u == 0x20 || u == 0x09 || u == 0x0a || u == 0x0c || u == 0x0d
}

/// The first position from `i` up to `hi` that does not hold white space.
pub open spec fn skip_space(cs: Seq<char>, i: int, hi: int) -> int
    decreases hi - i,
{
    if i < hi && is_space(cs[i]) {
        skip_space(cs, i + 1, hi)
    } else {
        i
    }
}

/// The end of `cs[lo..hi]` once trailing white space is dropped.
pub open spec fn trim_end(cs: Seq<char>, lo: int, hi: int) -> int
    decreases hi - lo,
{
    if lo < hi && is_space(cs[hi - 1]) {
        trim_end(cs, lo, hi - 1)
    } else {
        hi
    }
}

/// The end of the word that starts at `i`: the first ASCII white space before `hi`.
pub open spec fn word_end(cs: Seq<char>, i: int, hi: int) -> int
    decreases hi - i,
{
    if i < hi && !is_ascii_space(cs[i]) {
        word_end(cs, i + 1, hi)
    } else {
        i
    }
}

/// The meaning of a line of text: white space around it is ignored; its first word,
/// up to ASCII white space, names the command; `echo` prints the rest of the line
/// with its leading white space dropped.
pub open spec fn parse_command(cs: Seq<char>) -> CommandView {
    let lo = skip_space(cs, 0, cs.len() as int);
    let hi = trim_end(cs, lo, cs.len() as int);
    if lo >= hi {
        CommandView::Empty
    } else {
        let end = word_end(cs, lo, hi);
        let word = cs.subrange(lo, end);
        if word == seq!['h', 'e', 'l', 'p'] {
            CommandView::Help
        } else if word == seq!['v', 'e', 'r', 's', 'i', 'o', 'n'] {
            CommandView::Version
        } else if word == seq!['e', 'c', 'h', 'o'] {
            CommandView::Echo(cs.subrange(skip_space(cs, end, hi), hi))
        } else if word == seq!['c', 'l', 'e', 'a', 'r'] {
            CommandView::Clear
        } else if word == seq!['p', 'a', 'n', 'i', 'c'] {
            CommandView::Panic
        } else {
            CommandView::Unknown(word)
        }
    }
}

proof fn lemma_skip_to(cs: Seq<char>, i: int, lead: int, hi: int)
    requires
        0 <= i <= lead < hi <= cs.len(),
        forall|j: int| i <= j < lead ==> is_space(#[trigger] cs[j]),
        !is_space(cs[lead]),
    ensures
        skip_space(cs, i, hi) == lead,
    decreases lead - i,
{
    if i < lead {
        lemma_skip_to(cs, i + 1, lead, hi);
    }
}

proof fn lemma_trim_keeps(cs: Seq<char>, lo: int, hi: int, k: int)
    requires
        lo <= k < hi <= cs.len(),
        !is_space(cs[k]),
    ensures
        k < trim_end(cs, lo, hi) <= hi,
    decreases hi - lo,
{
    if k < hi - 1 && is_space(cs[hi - 1]) {
        lemma_trim_keeps(cs, lo, hi - 1, k);
    }
}

proof fn lemma_word_end_at(cs: Seq<char>, i: int, j: int, hi: int)
    requires
        0 <= i <= j <= hi <= cs.len(),
        forall|m: int| i <= m < j ==> !is_ascii_space(#[trigger] cs[m]),
        j == hi || is_ascii_space(cs[j]),
    ensures
        word_end(cs, i, hi) == j,
    decreases j - i,
{
    if i < j {
        lemma_word_end_at(cs, i + 1, j, hi);
    }
}

proof fn lemma_skip_stops(cs: Seq<char>, i: int, k: int, hi: int)
    requires
        0 <= i <= k < hi <= cs.len(),
        !is_space(cs[k]),
    ensures
        i <= skip_space(cs, i, hi) <= k,
    decreases k - i,
{
    if i < k && is_space(cs[i]) {
        lemma_skip_stops(cs, i + 1, k, hi);
    }
}

proof fn lemma_skip_all(cs: Seq<char>, i: int, hi: int)
    requires
        0 <= i <= hi <= cs.len(),
        forall|j: int| i <= j < hi ==> is_space(#[trigger] cs[j]),
    ensures
        skip_space(cs, i, hi) == hi,
    decreases hi - i,
{
    if i < hi {
        lemma_skip_all(cs, i + 1, hi);
    }
}

proof fn lemma_trim_exact(cs: Seq<char>, lo: int, hi: int, k: int)
    requires
        lo <= k <= hi <= cs.len(),
        0 <= lo,
        forall|j: int| k <= j < hi ==> is_space(#[trigger] cs[j]),
        k == lo || !is_space(cs[k - 1]),
    ensures
        trim_end(cs, lo, hi) == k,
    decreases hi - lo,
{
    if k < hi {
        lemma_trim_exact(cs, lo, hi - 1, k);
    }
}

/// Where the first word of a line lies when it starts at `lead` after white space,
/// has `len` characters, none of them ASCII white space and neither end white
/// space, and is followed by the end of the line or by ASCII white space.
proof fn lemma_first_word(cs: Seq<char>, lead: int, len: int)
    requires
        0 <= lead,
        0 < len,
        lead + len <= cs.len(),
        forall|i: int| 0 <= i < lead ==> is_space(#[trigger] cs[i]),
        !is_space(cs[lead]),
        !is_space(cs[lead + len - 1]),
        forall|m: int| lead <= m < lead + len ==> !is_ascii_space(#[trigger] cs[m]),
        lead + len == cs.len() || is_ascii_space(cs[lead + len]),
    ensures
        skip_space(cs, 0, cs.len() as int) == lead,
        lead + len <= trim_end(cs, lead, cs.len() as int) <= cs.len(),
        word_end(cs, lead, trim_end(cs, lead, cs.len() as int)) == lead + len,
{
    let n = cs.len() as int;
    lemma_skip_to(cs, 0, lead, n);
    lemma_trim_keeps(cs, lead, n, lead + len - 1);
    lemma_word_end_at(cs, lead, lead + len, trim_end(cs, lead, n));
}

/// A line means nothing exactly when it holds only white space.
pub proof fn lemma_blank_line(cs: Seq<char>)
    ensures
        parse_command(cs) == CommandView::Empty <==> forall|i: int|
            0 <= i < cs.len() ==> is_space(#[trigger] cs[i]),
{
    let n = cs.len() as int;
    if forall|i: int| 0 <= i < n ==> is_space(#[trigger] cs[i]) {
        lemma_skip_all(cs, 0, n);
    } else {
        let k = choose|k: int| 0 <= k < n && !is_space(#[trigger] cs[k]);
        lemma_skip_stops(cs, 0, k, n);
        let lo = skip_space(cs, 0, n);
        lemma_trim_keeps(cs, lo, n, k);
    }
}

/// A line whose first word is none of `help`, `version`, `echo`, `clear` and `panic`
/// names an unknown command, carrying that word. The word starts after the leading
/// white space and ends at the first ASCII white space or at the end of the line.
pub proof fn lemma_other_first_word(cs: Seq<char>, lead: int, word: Seq<char>)
    requires
        0 <= lead,
        word.len() > 0,
        lead + word.len() <= cs.len(),
        forall|i: int| 0 <= i < lead ==> is_space(#[trigger] cs[i]),
        cs.subrange(lead, lead + word.len()) == word,
        !is_space(word[0]),
        !is_space(word[word.len() - 1]),
        forall|m: int| 0 <= m < word.len() ==> !is_ascii_space(#[trigger] word[m]),
        lead + word.len() == cs.len() || is_ascii_space(cs[lead + word.len()]),
        word != seq!['h', 'e', 'l', 'p'],
        word != seq!['v', 'e', 'r', 's', 'i', 'o', 'n'],
        word != seq!['e', 'c', 'h', 'o'],
        word != seq!['c', 'l', 'e', 'a', 'r'],
        word != seq!['p', 'a', 'n', 'i', 'c'],
    ensures
        parse_command(cs) == CommandView::Unknown(word),
{
    let len = word.len() as int;
    assert(cs[lead] == word[0]);
    assert(cs[lead + len - 1] == word[len - 1]);
    assert forall|m: int| lead <= m < lead + len implies !is_ascii_space(#[trigger] cs[m]) by {
        assert(cs[m] == word[m - lead]);
    }
    lemma_first_word(cs, lead, len);
}

/// A line whose first word is `echo` prints the text after the word with the white
/// space around it dropped: the text `cs[r_lo..r_hi]`, where only white space comes
/// between the word and `r_lo` and after `r_hi`, and the text neither starts nor
/// ends with white space.
pub proof fn lemma_echo_rest(cs: Seq<char>, lead: int, r_lo: int, r_hi: int)
    requires
        0 <= lead,
        lead + 4 <= r_lo <= r_hi <= cs.len(),
        forall|i: int| 0 <= i < lead ==> is_space(#[trigger] cs[i]),
        cs.subrange(lead, lead + 4) == seq!['e', 'c', 'h', 'o'],
        lead + 4 == cs.len() || is_ascii_space(cs[lead + 4]),
        forall|j: int| lead + 4 <= j < r_lo ==> is_space(#[trigger] cs[j]),
        forall|j: int| r_hi <= j < cs.len() ==> is_space(#[trigger] cs[j]),
        r_lo < r_hi ==> !is_space(cs[r_lo]) && !is_space(cs[r_hi - 1]),
    ensures
        parse_command(cs) == CommandView::Echo(cs.subrange(r_lo, r_hi)),
{
    let n = cs.len() as int;
    let echo = seq!['e', 'c', 'h', 'o'];
    assert forall|m: int| lead <= m < lead + 4 implies !is_space(#[trigger] cs[m])
        && !is_ascii_space(cs[m]) by {
        assert(cs[m] == echo[m - lead]);
    }
    assert(!is_space(cs[lead]) && !is_space(cs[lead + 3]));
    lemma_first_word(cs, lead, 4);
    let hi = trim_end(cs, lead, n);
    assert(cs.subrange(lead, lead + 4) == echo);
    if r_lo < r_hi {
        lemma_trim_exact(cs, lead, n, r_hi);
        lemma_skip_to(cs, lead + 4, r_lo, hi);
    } else {
        lemma_trim_exact(cs, lead, n, lead + 4);
        assert(cs.subrange(hi, hi) =~= cs.subrange(r_lo, r_hi));
    }
    let help = seq!['h', 'e', 'l', 'p'];
    let version = seq!['v', 'e', 'r', 's', 'i', 'o', 'n'];
    assert(help[0] != echo[0] && version.len() != echo.len());
}

/// Only the first word of a line decides whether it names `help`, `version`,
/// `clear` or `panic`: a line that, after leading white space, starts with one of
/// these words followed by the end of the line or by ASCII white space names that
/// command, whatever follows the word.
pub proof fn lemma_first_word_names_command(cs: Seq<char>, lead: int, word: Seq<char>)
    requires
        0 <= lead,
        lead + word.len() <= cs.len(),
        forall|i: int| 0 <= i < lead ==> is_space(#[trigger] cs[i]),
        cs.subrange(lead, lead + word.len()) == word,
        lead + word.len() == cs.len() || is_ascii_space(cs[lead + word.len()]),
        word == seq!['h', 'e', 'l', 'p'] || word == seq!['v', 'e', 'r', 's', 'i', 'o', 'n'] || word
            == seq!['c', 'l', 'e', 'a', 'r'] || word == seq!['p', 'a', 'n', 'i', 'c'],
    ensures
        word == seq!['h', 'e', 'l', 'p'] ==> parse_command(cs) == CommandView::Help,
        word == seq!['v', 'e', 'r', 's', 'i', 'o', 'n'] ==> parse_command(cs) == CommandView::Version,
        word == seq!['c', 'l', 'e', 'a', 'r'] ==> parse_command(cs) == CommandView::Clear,
        word == seq!['p', 'a', 'n', 'i', 'c'] ==> parse_command(cs) == CommandView::Panic,
{
    let n = cs.len() as int;
    let len = word.len() as int;
    assert forall|m: int| 0 <= m < len implies !is_space(#[trigger] word[m]) && !is_ascii_space(
        word[m],
    ) by {
        let c = word[m];
        assert(c == 'h' || c == 'e' || c == 'l' || c == 'p' || c == 'v' || c == 'r' || c == 's'
            || c == 'i' || c == 'o' || c == 'n' || c == 'c' || c == 'a');
    }
    assert(cs[lead] == word[0]);
    assert(cs[lead + len - 1] == word[len - 1]);
    lemma_skip_to(cs, 0, lead, n);
    let lo = skip_space(cs, 0, n);
    lemma_trim_keeps(cs, lead, n, lead + len - 1);
    let hi = trim_end(cs, lo, n);
    assert forall|m: int| lead <= m < lead + len implies !is_ascii_space(#[trigger] cs[m]) by {
        assert(cs[m] == word[m - lead]);
    }
    lemma_word_end_at(cs, lead, lead + len, hi);
    assert(cs.subrange(lo, word_end(cs, lo, hi)) == word);
    let help = seq!['h', 'e', 'l', 'p'];
    let version = seq!['v', 'e', 'r', 's', 'i', 'o', 'n'];
    let echo = seq!['e', 'c', 'h', 'o'];
    let clear = seq!['c', 'l', 'e', 'a', 'r'];
    let panic = seq!['p', 'a', 'n', 'i', 'c'];
    assert(help[0] != echo[0] && clear[0] != panic[0] && version.len() != help.len());
    assert(help.len() != clear.len() && echo.len() != clear.len() && echo.len() != panic.len());
    assert(help.len() != panic.len() && version.len() != clear.len() && version.len() != panic.len());
}

fn is_space_char(c: char) -> (space: bool)
    ensures
        space == is_space(c),
{
    let u = c as u32;
    (0x09 <= u && u <= 0x0d) || u == 0x20 || u == 0x85 || u == 0xa0 || u == 0x1680 || (0x2000 <= u
        && u <= 0x200a) || u == 0x2028 || u == 0x2029 || u == 0x202f || u == 0x205f || u == 0x3000
}

fn is_ascii_space_char(c: char) -> (space: bool)
    ensures
        space == is_ascii_space(c),
{
    let u = c as u32;
    u == 0x20 || u == 0x09 || u == 0x0a || u == 0x0c || u == 0x0d
}

/// Whether `cs[lo..hi]` spells `word`.
fn spells(cs: &Vec<char>, lo: usize, hi: usize, word: &Vec<char>) -> (same: bool)
    requires
        lo <= hi <= cs@.len(),
    ensures
        same == (cs@.subrange(lo as int, hi as int) == word@),
{
    if hi - lo != word.len() {
        proof {
            assert(cs@.subrange(lo as int, hi as int).len() != word@.len());
        }
        return false;
    }
    let mut k: usize = 0;
    while k < word.len()
        invariant
            lo <= hi <= cs@.len(),
            hi - lo == word@.len(),
            k <= word@.len(),
            forall|j: int| 0 <= j < k ==> cs@[lo + j] == word@[j],
        decreases word@.len() - k,
    {
        if cs[lo + k] != word[k] {
            proof {
                assert(cs@.subrange(lo as int, hi as int)[k as int] != word@[k as int]);
            }
            return false;
        }
        k += 1;
    }
    proof {
        assert(cs@.subrange(lo as int, hi as int) =~= word@);
    }
    true
}

fn copy_range(cs: &Vec<char>, lo: usize, hi: usize) -> (part: Vec<char>)
    requires
        lo <= hi <= cs@.len(),
    ensures
        part@ == cs@.subrange(lo as int, hi as int),
{
    let mut part: Vec<char> = Vec::new();
    let mut k = lo;
    while k < hi
        invariant
            lo <= k <= hi <= cs@.len(),
            part@ == cs@.subrange(lo as int, k as int),
        decreases hi - k,
    {
        part.push(cs[k]);
        k += 1;
        proof {
            assert(part@ =~= cs@.subrange(lo as int, k as int));
        }
    }
    part
}

/// The command a line of text names; see [`parse_command`].
pub fn parse_line(cs: &Vec<char>) -> (command: Command)
    ensures
        command@ == parse_command(cs@),
{
    let n = cs.len();
    let mut lo: usize = 0;
    while lo < n && is_space_char(cs[lo])
        invariant
            lo <= n == cs@.len(),
            skip_space(cs@, 0, n as int) == skip_space(cs@, lo as int, n as int),
        decreases n - lo,
    {
        lo += 1;
    }
    let mut hi: usize = n;
    while hi > lo && is_space_char(cs[hi - 1])
        invariant
            lo <= hi <= n == cs@.len(),
            trim_end(cs@, lo as int, n as int) == trim_end(cs@, lo as int, hi as int),
        decreases hi - lo,
    {
        hi -= 1;
    }
    if lo >= hi {
        return Command::Empty;
    }
    let mut end = lo;
    while end < hi && !is_ascii_space_char(cs[end])
        invariant
            lo <= end <= hi <= n == cs@.len(),
            word_end(cs@, lo as int, hi as int) == word_end(cs@, end as int, hi as int),
        decreases hi - end,
    {
        end += 1;
    }
    if spells(cs, lo, end, &vec!['h', 'e', 'l', 'p']) {
        Command::Help
    } else if spells(cs, lo, end, &vec!['v', 'e', 'r', 's', 'i', 'o', 'n']) {
        Command::Version
    } else if spells(cs, lo, end, &vec!['e', 'c', 'h', 'o']) {
        let mut start = end;
        while start < hi && is_space_char(cs[start])
            invariant
                end <= start <= hi <= n == cs@.len(),
                skip_space(cs@, end as int, hi as int) == skip_space(cs@, start as int, hi as int),
            decreases hi - start,
        {
            start += 1;
        }
        Command::Echo(copy_range(cs, start, hi))
    } else if spells(cs, lo, end, &vec!['c', 'l', 'e', 'a', 'r']) {
        Command::Clear
    } else if spells(cs, lo, end, &vec!['p', 'a', 'n', 'i', 'c']) {
        Command::Panic
    } else {
        Command::Unknown(copy_range(cs, lo, end))
    }
}

/// Decodes bytes as UTF-8 with `core::str::from_utf8` and collects the characters of
/// the text. The contract claims of `from_utf8` that it accepts exactly the valid
/// UTF-8 byte sequences and that the text it gives holds the characters they encode.
#[verifier::external_body]
fn decode_chars(bytes: &[u8]) -> (chars: Option<Vec<char>>)
    ensures
        chars is Some <==> valid_utf8(bytes@),
        chars matches Some(v) ==> v@ == decode_utf8(bytes@),
{
    match core::str::from_utf8(bytes) {
        Ok(text) => Some(text.chars().collect()),
        Err(_) => None,
    }
}

/// The command a finished line names: bytes that are not UTF-8 are invalid, and
/// text means what [`parse_command`] says.
pub fn handle_command(cmd: &[u8]) -> (command: Command)
    ensures
        command@ == if valid_utf8(cmd@) {
            parse_command(decode_utf8(cmd@))
        } else {
            CommandView::Invalid
        },
{
    match decode_chars(cmd) {
        Some(chars) => parse_line(&chars),
        None => Command::Invalid,
    }
}

} // verus!
