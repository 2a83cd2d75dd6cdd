use crate::sha::{is_hex, unhex, SHA};
use crate::text::push_char;
use vstd::prelude::*;
use vstd::string::{StrSliceExecFns, StringExecFns};

verus! {

/// True for the characters that separate words: those with the Unicode
/// property White_Space.
pub open spec fn is_space(c: char) -> bool {
    let n = c as u32;
    (0x09 <= n && n <= 0x0d) || n == 0x20 || n == 0x85 || n == 0xa0 || n == 0x1680 || (0x2000 <= n
        && n <= 0x200a) || n == 0x2028 || n == 0x2029 || n == 0x202f || n == 0x205f || n == 0x3000
}

/// The words of a line: its maximal runs of characters that are not
/// white space, in order.
pub open spec fn whitespace_tokens(line: Seq<char>) -> Seq<Seq<char>>
    decreases line.len(),
{
    if line.len() == 0 {
        Seq::empty()
    } else {
        let before = whitespace_tokens(line.drop_last());
        let c = line.last();
        if is_space(c) {
            before
        } else if line.len() >= 2 && !is_space(line[line.len() - 2]) && before.len() > 0 {
            before.drop_last().push(before.last().push(c))
        } else {
            before.push(seq![c])
        }
    }
}

/// The contents of a list of texts.
pub open spec fn texts(words: Seq<String>) -> Seq<Seq<char>> {
    Seq::new(words.len(), |i: int| words[i]@)
}

/// The words read so far: the finished ones, and the one that is being
/// read where it has begun.
pub open spec fn words_so_far(done: Seq<String>, current: Seq<char>) -> Seq<Seq<char>> {
    if current.len() > 0 {
        texts(done).push(current)
    } else {
        texts(done)
    }
}

fn space(c: char) -> (r: bool)
    ensures
        r == is_space(c),
{
    let n = c as u32;
    (0x09 <= n && n <= 0x0d) || n == 0x20 || n == 0x85 || n == 0xa0 || n == 0x1680 || (0x2000 <= n
        && n <= 0x200a) || n == 0x2028 || n == 0x2029 || n == 0x202f || n == 0x205f || n == 0x3000
}

/// The words of `line`.
pub fn split_tokens(line: &str) -> (words: Vec<String>)
    ensures
        texts(words@) == whitespace_tokens(line@),
{
    let n = line.unicode_len();
    let mut words: Vec<String> = Vec::new();
    let mut current = String::new();
    let mut i: usize = 0;
    assert(texts(words@) =~= Seq::<Seq<char>>::empty());
    assert(line@.take(0) =~= Seq::<char>::empty());
    while i < n
        invariant
            i <= n,
            n == line@.len(),
            words_so_far(words@, current@) == whitespace_tokens(line@.take(i as int)),
            current@.len() > 0 <==> (i > 0 && !is_space(line@[i - 1])),
        decreases n - i,
    {
        let c = line.get_char(i);
        let ghost seen = line@.take(i as int + 1);
        let ghost before = whitespace_tokens(line@.take(i as int));
        proof {
            assert(seen.drop_last() =~= line@.take(i as int));
            assert(seen.last() == c);
            if i > 0 {
                assert(seen[seen.len() - 2] == line@[i - 1]);
            }
        }
        if space(c) {
            if current.unicode_len() > 0 {
                let ghost finished = current@;
                let ghost done = texts(words@);
                words.push(current);
                current = String::new();
                assert(texts(words@) =~= done.push(finished));
            }
        } else {
            let ghost begun = current@;
            push_char(&mut current, c);
            proof {
                if begun.len() > 0 {
                    assert(before == texts(words@).push(begun));
                    assert(before.drop_last() =~= texts(words@));
                    assert(before.last() == begun);
                    assert(whitespace_tokens(seen) == texts(words@).push(begun.push(c)));
                } else {
                    assert(before == texts(words@));
                    assert(current@ =~= seq![c]);
                    assert(whitespace_tokens(seen) == before.push(seq![c]));
                }
            }
        }
        i += 1;
    }
    assert(line@.take(n as int) =~= line@);
    if current.unicode_len() > 0 {
        words.push(current);
        assert(texts(words@) =~= whitespace_tokens(line@));
    }
    words
}

/// What the operator asks of the node.
#[derive(Clone, Debug)]
pub enum Command {
    Ping { address: String },
    Find { id: SHA },
    Store { key: String, value: String },
    Get { key: String },
    Delete { key: String },
    Close,
    Unknown,
}

/// The mathematical content of a `Command`.
pub enum CommandView {
    Ping { address: Seq<char> },
    Find { id: Seq<u8> },
    Store { key: Seq<char>, value: Seq<char> },
    Get { key: Seq<char> },
    Delete { key: Seq<char> },
    Close,
    Unknown,
}

impl View for Command {
    type V = CommandView;

    open spec fn view(&self) -> CommandView {
        match *self {
            Command::Ping { address } => CommandView::Ping { address: address@ },
            Command::Find { id } => CommandView::Find { id: id@ },
            Command::Store { key, value } => CommandView::Store { key: key@, value: value@ },
            Command::Get { key } => CommandView::Get { key: key@ },
            Command::Delete { key } => CommandView::Delete { key: key@ },
            Command::Close => CommandView::Close,
            Command::Unknown => CommandView::Unknown,
        }
    }
}

/// The command that a line of these words gives: `ping <address>`,
/// `find <forty hexadecimal digits>`, `store <key> <value>`, `get <key>`,
/// `delete <key>` or `close`; anything else is unknown.
pub open spec fn command_of(words: Seq<Seq<char>>) -> CommandView {
    if words.len() == 1 && words[0] == "close"@ {
        CommandView::Close
    } else if words.len() == 2 && words[0] == "ping"@ {
        CommandView::Ping { address: words[1] }
    } else if words.len() == 2 && words[0] == "find"@ && is_hex(words[1]) {
        CommandView::Find { id: unhex(words[1]) }
    } else if words.len() == 2 && words[0] == "get"@ {
        CommandView::Get { key: words[1] }
    } else if words.len() == 2 && words[0] == "delete"@ {
        CommandView::Delete { key: words[1] }
    } else if words.len() == 3 && words[0] == "store"@ {
        CommandView::Store { key: words[1], value: words[2] }
    } else {
        CommandView::Unknown
    }
}

fn is_word(token: &String, word: &str) -> (r: bool)
    ensures
        r == (token@ == word@),
{
    let wanted = String::from_str(word);
    *token == wanted
}

/// The command that a line of the words `tokens` gives.
pub fn command_from_tokens(tokens: &Vec<String>) -> (command: Command)
    ensures
        command@ == command_of(texts(tokens@)),
{
    let n = tokens.len();
    if n == 1 && is_word(&tokens[0], "close") {
        Command::Close
    } else if n == 2 && is_word(&tokens[0], "ping") {
        Command::Ping { address: tokens[1].clone() }
    } else if n == 2 && is_word(&tokens[0], "find") {
        match SHA::from_hex(tokens[1].as_str()) {
            Some(id) => Command::Find { id },
            None => {
                proof {
                    lemma_words_differ();
                }
                Command::Unknown
            },
        }
    } else if n == 2 && is_word(&tokens[0], "get") {
        Command::Get { key: tokens[1].clone() }
    } else if n == 2 && is_word(&tokens[0], "delete") {
        Command::Delete { key: tokens[1].clone() }
    } else if n == 3 && is_word(&tokens[0], "store") {
        Command::Store { key: tokens[1].clone(), value: tokens[2].clone() }
    } else {
        Command::Unknown
    }
}

/// The keywords are different words.
proof fn lemma_words_differ()
    ensures
        "find"@ != "get"@,
        "find"@ != "delete"@,
{
    reveal_strlit("find");
    reveal_strlit("get");
    reveal_strlit("delete");
    assert("find"@.len() == 4);
    assert("get"@.len() == 3);
    assert("delete"@.len() == 6);
}

/// The command that the line gives, read word by word.
pub fn parse_command(line: &str) -> (command: Command)
    ensures
        command@ == command_of(whitespace_tokens(line@)),
{
    let tokens = split_tokens(line);
    command_from_tokens(&tokens)
}

} // verus!
