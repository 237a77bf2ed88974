use vstd::prelude::*;

verus! {

/// `p` is a prefix of `s`.
pub open spec fn has_prefix(s: Seq<char>, p: Seq<char>) -> bool {
    p.len() <= s.len() && s.subrange(0, p.len() as int) == p
}

/// Whether `s` starts with `p`, comparing character by character.
pub fn starts_with(s: &str, p: &str) -> (r: bool)
    ensures
        r == has_prefix(s@, p@),
{
    let n = s.unicode_len();
    let m = p.unicode_len();
    if m > n {
        return false;
    }
    let mut i: usize = 0;
    while i < m
        invariant
            m == p@.len(),
            n == s@.len(),
            m <= n,
            i <= m,
            forall|j: int| 0 <= j < i ==> s@[j] == p@[j],
        decreases m - i,
    {
        if s.get_char(i) != p.get_char(i) {
            assert(s@.subrange(0, m as int)[i as int] != p@[i as int]);
            return false;
        }
        i = i + 1;
    }
    assert(s@.subrange(0, m as int) =~= p@);
    true
}

/// Whether `a` and `b` hold the same characters.
pub fn same_text(a: &str, b: &str) -> (r: bool)
    ensures
        r == (a@ == b@),
{
    let same = a.unicode_len() == b.unicode_len() && starts_with(a, b);
    assert(a@.subrange(0, a@.len() as int) =~= a@);
    same
}

/// Position of the first space in `s` at or after `from`.
pub open spec fn space_from(s: Seq<char>, from: int) -> Option<int>
    decreases s.len() - from,
{
    if from < 0 || from >= s.len() {
        None
    } else if s[from] == ' ' {
        Some(from)
    } else {
        space_from(s, from + 1)
    }
}

/// A space found from `from` on lies at or after `from`, inside `s`.
proof fn lemma_space_from_bounds(s: Seq<char>, from: int)
    requires
        0 <= from,
    ensures
        match space_from(s, from) {
            Some(i) => from <= i < s.len() && s[i] == ' ',
            None => true,
        },
    decreases s.len() - from,
{
    if from < s.len() && s[from] != ' ' {
        lemma_space_from_bounds(s, from + 1);
    }
}

/// The first word of a command line: everything before the first space.
pub open spec fn command_word(msg: Seq<char>) -> Seq<char> {
    match space_from(msg, 0) {
        Some(i) => msg.subrange(0, i),
        None => msg,
    }
}

/// The argument of a command line: everything after the first space, if
/// there is one.
pub open spec fn command_arg(msg: Seq<char>) -> Option<Seq<char>> {
    match space_from(msg, 0) {
        Some(i) => Some(msg.subrange(i + 1, msg.len() as int)),
        None => None,
    }
}

/// Position of the first space in `s`.
fn first_space(s: &str) -> (r: Option<usize>)
    ensures
        match r {
            Some(i) => space_from(s@, 0) == Some(i as int) && i < s@.len(),
            None => space_from(s@, 0) is None,
        },
{
    proof {
        lemma_space_from_bounds(s@, 0);
    }
    let n = s.unicode_len();
    let mut i: usize = 0;
    while i < n
        invariant
            n == s@.len(),
            i <= n,
            space_from(s@, 0) == space_from(s@, i as int),
        decreases n - i,
    {
        if s.get_char(i) == ' ' {
            return Some(i);
        }
        i = i + 1;
    }
    None
}

/// What a line of text from a client asks for.
#[derive(PartialEq, Eq, Debug)]
pub enum TextCommand {
    /// `/list`: the rooms and who is in them.
    List,
    /// `/join <room>`.
    Join(String),
    /// `/join` without a room name.
    MissingRoom,
    /// Any other line starting with `/`; holds the whole line.
    Unknown(String),
    /// A line that is not a command: chat text, handled elsewhere.
    Chat,
}

/// `c` is what the (already trimmed) line `msg` asks for.
pub open spec fn parses_as(msg: Seq<char>, c: TextCommand) -> bool {
    if !has_prefix(msg, "/"@) {
        c is Chat
    } else if command_word(msg) == "/list"@ {
        c is List
    } else if command_word(msg) == "/join"@ {
        match command_arg(msg) {
            Some(room) => c is Join && c->Join_0@ == room,
            None => c is MissingRoom,
        }
    } else {
        c is Unknown && c->Unknown_0@ == msg
    }
}

/// Reads a trimmed line: a command if it starts with `/`, else chat text.
pub fn parse_command(msg: &str) -> (r: TextCommand)
    ensures
        parses_as(msg@, r),
{
    if !starts_with(msg, "/") {
        return TextCommand::Chat;
    }
    let n = msg.unicode_len();
    let sp = first_space(msg);
    let word = match sp {
        Some(i) => msg.substring_char(0, i),
        None => msg,
    };
    if same_text(word, "/list") {
        TextCommand::List
    } else if same_text(word, "/join") {
        match sp {
            Some(i) => TextCommand::Join(String::from_str(msg.substring_char(i + 1, n))),
            None => TextCommand::MissingRoom,
        }
    } else {
        TextCommand::Unknown(String::from_str(msg))
    }
}

/// What `str::trim` makes of a text.
pub uninterp spec fn trimmed(s: Seq<char>) -> Seq<char>;

/// Relies on `str::trim`: `s` without leading and trailing whitespace. The
/// result depends on the characters of `s` alone.
#[verifier::external_body]
pub(crate) fn trim(s: &str) -> (r: &str)
    ensures
        r@ == trimmed(s@),
{
    s.trim()
}

} // verus!
