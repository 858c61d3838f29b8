//! Commands of the store's command line: a line of up to three words, the
//! last of which may hold spaces.
use vstd::prelude::*;
use vstd::string::StrSliceExecFns;

verus! {

/// A command, read from the words of a line.
#[derive(Debug, PartialEq, Eq)]
pub enum Command {
    /// `SET key value`, with a non-empty value.
    Put { key: String, value: String },
    /// `SET key` with an empty value, which is ignored.
    EmptyValue,
    /// `GET key`.
    Get { key: String },
    /// `DELETE key`.
    Delete { key: String },
    /// `COMPACT`.
    Compact,
    /// A known command word without the words it needs.
    MissingArgument,
    /// Any other first word.
    Unknown,
}

/// First position at or after `i` that holds `c`, or `s.len()`.
pub open spec fn find_char_from(s: Seq<char>, c: char, i: int) -> int
    decreases s.len() - i,
{
    if i >= s.len() {
        s.len() as int
    } else if s[i] == c {
        i
    } else {
        find_char_from(s, c, i + 1)
    }
}

/// The line cut at its first two spaces, into at most three words.
pub open spec fn split_spec(s: Seq<char>) -> Seq<Seq<char>> {
    let i = find_char_from(s, ' ', 0);
    if i >= s.len() {
        seq![s]
    } else {
        let j = find_char_from(s, ' ', i + 1);
        if j >= s.len() {
            seq![s.subrange(0, i), s.subrange(i + 1, s.len() as int)]
        } else {
            seq![s.subrange(0, i), s.subrange(i + 1, j), s.subrange(j + 1, s.len() as int)]
        }
    }
}

/// The first space at or after `from`, or the length of the text.
fn find_space(s: &str, from: usize) -> (r: usize)
    requires
        from <= s@.len(),
    ensures
        r == find_char_from(s@, ' ', from as int),
        from <= r <= s@.len(),
{
    let n = s.unicode_len();
    let mut i = from;
    while i < n
        invariant
            n == s@.len(),
            from <= i <= n,
            find_char_from(s@, ' ', i as int) == find_char_from(s@, ' ', from as int),
        decreases n - i,
    {
        if s.get_char(i) == ' ' {
            return i;
        }
        i = i + 1;
    }
    i
}

/// Cuts a line at its first two spaces into at most three words.
pub fn split_words(line: &String) -> (r: Vec<String>)
    ensures
        r@.map_values(|w: String| w@) == split_spec(line@),
{
    let s = line.as_str();
    let n = s.unicode_len();
    let i = find_space(s, 0);
    let mut out: Vec<String> = Vec::new();
    if i == n {
        out.push(line.clone());
    } else {
        let j = find_space(s, i + 1);
        out.push(s.substring_char(0, i).to_owned());
        if j == n {
            out.push(s.substring_char(i + 1, n).to_owned());
        } else {
            out.push(s.substring_char(i + 1, j).to_owned());
            out.push(s.substring_char(j + 1, n).to_owned());
        }
    }
    assert(out@.map_values(|w: String| w@) =~= split_spec(line@));
    out
}

/// What the words of a line ask for: the first word names the command,
/// the second is the key, the third the value.
pub open spec fn command_spec(words: Seq<Seq<char>>, r: Command) -> bool {
    if words.len() == 0 {
        r == Command::Unknown
    } else if words[0] == "SET"@ {
        if words.len() < 3 {
            r == Command::MissingArgument
        } else if words[2].len() == 0 {
            r == Command::EmptyValue
        } else {
            r matches Command::Put { key, value } && key@ == words[1] && value@ == words[2]
        }
    } else if words[0] == "GET"@ {
        if words.len() < 2 {
            r == Command::MissingArgument
        } else {
            r matches Command::Get { key } && key@ == words[1]
        }
    } else if words[0] == "DELETE"@ {
        if words.len() < 2 {
            r == Command::MissingArgument
        } else {
            r matches Command::Delete { key } && key@ == words[1]
        }
    } else if words[0] == "COMPACT"@ {
        r == Command::Compact
    } else {
        r == Command::Unknown
    }
}

/// Reads a command from the words of a line.
pub fn parse_command(words: &Vec<String>) -> (r: Command)
    ensures
        command_spec(words@.map_values(|w: String| w@), r),
{
    let ghost ws = words@.map_values(|w: String| w@);
    if words.len() == 0 {
        return Command::Unknown;
    }
    let first = &words[0];
    let set = "SET".to_owned();
    let get = "GET".to_owned();
    let delete = "DELETE".to_owned();
    let compact = "COMPACT".to_owned();
    assert(ws[0] == first@);
    if *first == set {
        if words.len() < 3 {
            Command::MissingArgument
        } else if words[2].as_str().unicode_len() == 0 {
            Command::EmptyValue
        } else {
            Command::Put { key: words[1].clone(), value: words[2].clone() }
        }
    } else if *first == get {
        if words.len() < 2 {
            Command::MissingArgument
        } else {
            Command::Get { key: words[1].clone() }
        }
    } else if *first == delete {
        if words.len() < 2 {
            Command::MissingArgument
        } else {
            Command::Delete { key: words[1].clone() }
        }
    } else if *first == compact {
        Command::Compact
    } else {
        Command::Unknown
    }
}

} // verus!
