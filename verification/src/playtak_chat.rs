//! Commands that players send to the engine in playtak chat messages.
use crate::text::{chars_to_string, split_whitespace, str_to_chars, views, words};
use vstd::prelude::*;

verus! {

/// A command sent to the engine: `Tell <name> engine command [argument]`, or the same with
/// `Shout`.
pub struct ChatCommand {
    pub command: String,
    pub argument: Option<String>,
    pub response_command: String,
    pub sender_name: String,
}

/// A chat command as text.
pub struct ChatCommandView {
    pub command: Seq<char>,
    pub argument: Option<Seq<char>>,
    pub response_command: Seq<char>,
    pub sender_name: Seq<char>,
}

impl ChatCommand {
    pub open spec fn view(&self) -> ChatCommandView {
        ChatCommandView {
            command: self.command@,
            argument: match self.argument {
                Some(a) => Some(a@),
                None => None,
            },
            response_command: self.response_command@,
            sender_name: self.sender_name@,
        }
    }
}

pub open spec fn tell_word() -> Seq<char> {
    seq!['T', 'e', 'l', 'l']
}

pub open spec fn shout_word() -> Seq<char> {
    seq!['S', 'h', 'o', 'u', 't']
}

/// A name that can lose its first and last character, both one byte long.
pub open spec fn name_strippable(w: Seq<char>) -> bool {
    &&& w.len() >= 2
    &&& (w[0] as u32) < 128
    &&& (w[w.len() - 1] as u32) < 128
}

/// A chat message that the engine reads: it starts with `Tell` or `Shout`, and the sender's
/// name after it, if there is one, can be stripped of its brackets.
pub open spec fn chat_message_readable(input: Seq<char>) -> bool {
    let ws = words(input);
    &&& ws.len() >= 1
    &&& (ws[0] == tell_word() || ws[0] == shout_word())
    &&& ws.len() >= 2 ==> name_strippable(ws[1])
}

pub open spec fn is_prefix(p: Seq<char>, w: Seq<char>) -> bool {
    p.len() <= w.len() && w.subrange(0, p.len() as int) == p
}

/// The command in a chat message addressed to the engine: the third word starts with the
/// engine's name, the fourth is the command and the fifth, if there is one, its argument.
pub open spec fn spec_parse_engine_command(engine_name: Seq<char>, input: Seq<char>) -> Option<
    ChatCommandView,
> {
    let ws = words(input);
    if ws.len() >= 4 && is_prefix(engine_name, ws[2]) {
        Some(
            ChatCommandView {
                command: ws[3],
                argument: if ws.len() >= 5 {
                    Some(ws[4])
                } else {
                    None
                },
                response_command: ws[0],
                sender_name: ws[1].subrange(1, ws[1].len() - 1),
            },
        )
    } else {
        None
    }
}

fn word_equals(w: &Vec<char>, target: &str) -> (b: bool)
    ensures
        b == (w@ == target@),
{
    let t = str_to_chars(target);
    if w.len() != t.len() {
        return false;
    }
    let mut i: usize = 0;
    while i < w.len()
        invariant
            i <= w.len(),
            w.len() == t.len(),
            t@ == target@,
            forall|k: int| 0 <= k < i ==> w@[k] == t@[k],
        decreases w.len() - i,
    {
        if w[i] != t[i] {
            return false;
        }
        i = i + 1;
    }
    assert(w@ =~= t@);
    true
}

/// Whether `parse_engine_command` reads this message.
pub fn chat_message_is_readable(input: &str) -> (b: bool)
    ensures
        b == chat_message_readable(input@),
{
    let chars = str_to_chars(input);
    let ws = split_whitespace(&chars);
    proof {
        reveal_strlit("Tell");
        reveal_strlit("Shout");
        assert("Tell"@ =~= tell_word());
        assert("Shout"@ =~= shout_word());
    }
    if ws.len() == 0 {
        return false;
    }
    proof {
        assert(words(input@)[0] == ws@[0]@);
    }
    if !word_equals(&ws[0], "Tell") && !word_equals(&ws[0], "Shout") {
        return false;
    }
    if ws.len() >= 2 {
        proof {
            assert(words(input@)[1] == ws@[1]@);
        }
        let name = &ws[1];
        if name.len() < 2 {
            return false;
        }
        let first = name[0] as u32;
        let last = name[name.len() - 1] as u32;
        if first >= 128 || last >= 128 {
            return false;
        }
    }
    true
}

fn starts_with(w: &Vec<char>, p: &Vec<char>) -> (b: bool)
    ensures
        b == is_prefix(p@, w@),
{
    if p.len() > w.len() {
        return false;
    }
    let mut i: usize = 0;
    while i < p.len()
        invariant
            i <= p.len(),
            p.len() <= w.len(),
            forall|k: int| 0 <= k < i ==> w@[k] == p@[k],
        decreases p.len() - i,
    {
        if w[i] != p[i] {
            assert(w@.subrange(0, p.len() as int)[i as int] != p@[i as int]);
            return false;
        }
        i = i + 1;
    }
    assert(w@.subrange(0, p.len() as int) =~= p@);
    true
}

fn sub_chars(w: &Vec<char>, start: usize, end: usize) -> (out: Vec<char>)
    requires
        start <= end <= w.len(),
    ensures
        out@ == w@.subrange(start as int, end as int),
{
    let mut out: Vec<char> = Vec::new();
    let mut i: usize = start;
    while i < end
        invariant
            start <= i <= end <= w.len(),
            out@ == w@.subrange(start as int, i as int),
        decreases end - i,
    {
        out.push(w[i]);
        i = i + 1;
        assert(out@ =~= w@.subrange(start as int, i as int));
    }
    out
}

impl ChatCommand {
    /// Reads a chat message addressed to the engine `engine_name`; `None` when the message
    /// is addressed to someone else or has no command.
    pub fn parse_engine_command(engine_name: &str, input: &str) -> (r: Option<ChatCommand>)
        requires
            chat_message_readable(input@),
        ensures
            match r {
                Some(c) => spec_parse_engine_command(engine_name@, input@) == Some(c@),
                None => spec_parse_engine_command(engine_name@, input@) is None,
            },
    {
        let chars = str_to_chars(input);
        let ws = split_whitespace(&chars);
        let ghost v = words(input@);
        if ws.len() < 4 {
            return None;
        }
        proof {
            assert(v[0] == ws@[0]@);
            assert(v[1] == ws@[1]@);
            assert(v[2] == ws@[2]@);
            assert(v[3] == ws@[3]@);
        }
        let engine = str_to_chars(engine_name);
        if !starts_with(&ws[2], &engine) {
            return None;
        }
        let name = sub_chars(&ws[1], 1, ws[1].len() - 1);
        let argument = if ws.len() >= 5 {
            proof {
                assert(v[4] == ws@[4]@);
            }
            Some(chars_to_string(&ws[4]))
        } else {
            None
        };
        let c = ChatCommand {
            command: chars_to_string(&ws[3]),
            argument,
            response_command: chars_to_string(&ws[0]),
            sender_name: chars_to_string(&name),
        };
        proof {
            let expected = spec_parse_engine_command(engine_name@, input@).unwrap();
            assert(c@.argument == expected.argument);
            assert(c@ == expected);
        }
        Some(c)
    }
}

} // verus!
