//! Reading the commands `load <value>` and `inspect <value>` from a line.
use vstd::prelude::*;
use crate::text::{chars_of, is_white_space, joined, same_text, white_space};
use crate::tokenize::{lemma_skip_spaces, skip_spaces};

verus! {

/// A word of a command line.
enum Token<'d> {
    Inspect,
    Load,
    Value(&'d str),
}

/// What a word of a command line is.
pub enum WordV {
    Inspect,
    Load,
    Value(Seq<char>),
}

/// A command of the prompt.
#[derive(Debug, PartialEq, Eq)]
pub enum Command<'c> {
    Inspect(&'c str),
    Load(&'c str),
}

/// What a command is.
pub enum CommandV {
    Inspect(Seq<char>),
    Load(Seq<char>),
}

impl<'c> View for Command<'c> {
    type V = CommandV;

    open spec fn view(&self) -> CommandV {
        match *self {
            Command::Inspect(s) => CommandV::Inspect(s@),
            Command::Load(s) => CommandV::Load(s@),
        }
    }
}

/// How a command is written (`Display`).
pub open spec fn command_text(c: CommandV) -> Seq<char> {
    match c {
        CommandV::Inspect(s) => "inspect "@ + s,
        CommandV::Load(s) => "load "@ + s,
    }
}

impl<'c> Command<'c> {
    /// How the command is written.
    pub fn to_text(&self) -> (r: String)
        ensures
            r@ == command_text(self@),
    {
        match self {
            Command::Inspect(s) => joined("inspect ", s),
            Command::Load(s) => joined("load ", s),
        }
    }
}

/// The end of the run of non-space characters that starts at `i`.
pub open spec fn space_end(s: Seq<char>, i: int) -> int
    decreases s.len() - i,
{
    if 0 <= i < s.len() && !is_white_space(s[i]) {
        space_end(s, i + 1)
    } else {
        i
    }
}

proof fn lemma_space_end(s: Seq<char>, i: int)
    requires
        0 <= i <= s.len(),
    ensures
        i <= space_end(s, i) <= s.len(),
        i < s.len() && !is_white_space(s[i]) ==> i < space_end(s, i),
    decreases s.len() - i,
{
    if i < s.len() && !is_white_space(s[i]) {
        lemma_space_end(s, i + 1);
    }
}

/// The words of `s` from `i` on: its runs of non-space characters.
pub open spec fn words_from(s: Seq<char>, i: int) -> Seq<Seq<char>>
    decreases s.len() - i,
{
    let j = skip_spaces(s, i);
    if j < 0 || j >= s.len() {
        Seq::empty()
    } else {
        let e = space_end(s, j);
        if i < e <= s.len() {
            seq![s.subrange(j, e)] + words_from(s, e)
        } else {
            Seq::empty()
        }
    }
}

/// What a word stands for.
pub open spec fn word_kind(w: Seq<char>) -> WordV {
    if w == "load"@ {
        WordV::Load
    } else if w == "inspect"@ {
        WordV::Inspect
    } else {
        WordV::Value(w)
    }
}

/// The commands that the words `ws` give from `i` on; `None` where a value stands where
/// a command should, on which the reader would never finish.
pub open spec fn commands_from(ws: Seq<WordV>, i: int) -> Option<Seq<CommandV>>
    decreases ws.len() - i,
{
    if i < 0 || i >= ws.len() {
        Some(Seq::empty())
    } else {
        match ws[i] {
            WordV::Value(_) => None,
            kw => {
                if i + 1 < ws.len() {
                    let rest = commands_from(ws, i + 2);
                    match ws[i + 1] {
                        WordV::Value(v) => match rest {
                            Some(cs) => Some(
                                seq![
                                    if kw is Load {
                                        CommandV::Load(v)
                                    } else {
                                        CommandV::Inspect(v)
                                    },
                                ] + cs,
                            ),
                            None => None,
                        },
                        _ => rest,
                    }
                } else {
                    Some(Seq::empty())
                }
            },
        }
    }
}

/// How many times the reader complains "unexpected token: non-value" on the words `ws`
/// from `i` on: once for each command word followed by no value.
pub open spec fn complaints_from(ws: Seq<WordV>, i: int) -> nat
    decreases ws.len() - i,
{
    if i < 0 || i >= ws.len() {
        0
    } else {
        match ws[i] {
            WordV::Value(_) => 0,
            _ => if i + 1 < ws.len() {
                match ws[i + 1] {
                    WordV::Value(_) => complaints_from(ws, i + 2),
                    _ => 1 + complaints_from(ws, i + 2),
                }
            } else {
                1
            },
        }
    }
}

/// How many times the reader complains on the line `s`.
pub open spec fn line_complaints(s: Seq<char>) -> nat {
    complaints_from(words_from(s, 0).map_values(|w: Seq<char>| word_kind(w)), 0)
}

/// The commands of a line.
pub open spec fn line_commands(s: Seq<char>) -> Option<Seq<CommandV>> {
    commands_from(words_from(s, 0).map_values(|w: Seq<char>| word_kind(w)), 0)
}

/// The views of a sequence of commands.
pub open spec fn commands_view<'c>(v: Seq<Command<'c>>) -> Seq<CommandV> {
    v.map_values(|c: Command<'c>| c@)
}

impl<'d> Token<'d> {
    spec fn view_word(self) -> WordV {
        match self {
            Token::Inspect => WordV::Inspect,
            Token::Load => WordV::Load,
            Token::Value(s) => WordV::Value(s@),
        }
    }
}

spec fn words_view<'d>(v: Seq<Token<'d>>) -> Seq<WordV> {
    v.map_values(|t: Token<'d>| t.view_word())
}

/// The commands of the line `s`.
pub fn get_cmds_from_str(s: &str) -> (r: Vec<Command<'_>>)
    requires
        line_commands(s@) is Some,
    ensures
        commands_view(r@) == line_commands(s@)->0,
{
    read_commands(s).0
}

/// The commands of the line `s`, and how many times the reader complains "unexpected
/// token: non-value" (a command word with no value after it).
pub fn read_commands(s: &str) -> (r: (Vec<Command<'_>>, usize))
    requires
        line_commands(s@) is Some,
    ensures
        commands_view(r.0@) == line_commands(s@)->0,
        r.1 == line_complaints(s@),
{
    let tokens = lex(s);
    parse(tokens)
}

/// The words of `s`, by kind.
fn lex<'l>(s: &'l str) -> (r: Vec<Token<'l>>)
    ensures
        words_view(r@) == words_from(s@, 0).map_values(|w: Seq<char>| word_kind(w)),
{
    let chars = chars_of(s);
    let ghost text = s@;
    let mut result: Vec<Token> = Vec::new();
    let mut i: usize = 0;
    loop
        invariant_except_break
            chars@ == text,
            text == s@,
            i <= chars.len(),
            words_view(result@) + words_from(text, i as int).map_values(|w: Seq<char>| word_kind(w))
                == words_from(text, 0).map_values(|w: Seq<char>| word_kind(w)),
        ensures
            words_view(result@) == words_from(text, 0).map_values(|w: Seq<char>| word_kind(w)),
        decreases chars.len() - i,
    {
        proof {
            lemma_skip_spaces(text, i as int);
        }
        let ghost from = i;
        while i < chars.len() && white_space(chars[i])
            invariant
                chars@ == text,
                from <= i <= chars.len(),
                skip_spaces(text, i as int) == skip_spaces(text, from as int),
            decreases chars.len() - i,
        {
            i = i + 1;
        }
        if i >= chars.len() {
            assert(words_from(text, from as int) =~= Seq::<Seq<char>>::empty());
            assert(words_view(result@) + Seq::<Seq<char>>::empty().map_values(
                |w: Seq<char>| word_kind(w),
            ) =~= words_view(result@));
            break;
        }
        let start = i;
        proof {
            lemma_space_end(text, start as int);
        }
        while i < chars.len() && !white_space(chars[i])
            invariant
                chars@ == text,
                start <= i <= chars.len(),
                space_end(text, i as int) == space_end(text, start as int),
            decreases chars.len() - i,
        {
            i = i + 1;
        }
        let word = s.substring_char(start, i);
        let t = match_token(word);
        let ghost before = result@;
        result.push(t);
        proof {
            let ws = words_from(text, from as int);
            assert(ws == seq![text.subrange(start as int, i as int)] + words_from(text, i as int));
            assert(words_view(result@) =~= words_view(before).push(word_kind(word@)));
            assert(ws.map_values(|w: Seq<char>| word_kind(w)) =~= seq![word_kind(word@)]
                + words_from(text, i as int).map_values(|w: Seq<char>| word_kind(w)));
            assert(words_view(result@) + words_from(text, i as int).map_values(
                |w: Seq<char>| word_kind(w),
            ) =~= words_view(before) + ws.map_values(|w: Seq<char>| word_kind(w)));
        }
    }
    result
}

fn match_token<'s>(s: &'s str) -> (r: Token<'s>)
    ensures
        r.view_word() == word_kind(s@),
{
    if same_text(s, "load") {
        Token::Load
    } else if same_text(s, "inspect") {
        Token::Inspect
    } else {
        Token::Value(s)
    }
}

fn parse<'t>(tokens: Vec<Token<'t>>) -> (r: (Vec<Command<'t>>, usize))
    requires
        commands_from(words_view(tokens@), 0) is Some,
    ensures
        commands_view(r.0@) == commands_from(words_view(tokens@), 0)->0,
        r.1 == complaints_from(words_view(tokens@), 0),
{
    let ghost ws = words_view(tokens@);
    let mut commands: Vec<Command<'t>> = Vec::new();
    let mut complaints: usize = 0;
    let mut i: usize = 0;
    while i < tokens.len()
        invariant
            ws == words_view(tokens@),
            i <= tokens.len(),
            complaints <= i,
            complaints + complaints_from(ws, i as int) == complaints_from(ws, 0),
            commands_from(ws, i as int) is Some,
            commands_view(commands@) + commands_from(ws, i as int)->0 == commands_from(ws, 0)->0,
        decreases tokens.len() - i,
    {
        let ghost before = commands@;
        match &tokens[i] {
            Token::Inspect => {
                if i + 1 < tokens.len() {
                    match &tokens[i + 1] {
                        Token::Value(s) => {
                            commands.push(Command::Inspect(s));
                        },
                        _ => {
                            complaints = complaints + 1;
                        },
                    }
                } else {
                    complaints = complaints + 1;
                }
                proof {
                    assert(commands_view(commands@) =~= commands_view(before) + (if i + 1 < tokens.len() && ws[i + 1] is Value { seq![commands@.last()@] } else { Seq::empty() }));
                }
                if i + 1 < tokens.len() {
                    i = i + 2;
                } else {
                    i = i + 1;
                }
            },
            Token::Load => {
                if i + 1 < tokens.len() {
                    match &tokens[i + 1] {
                        Token::Value(s) => {
                            commands.push(Command::Load(s));
                        },
                        _ => {
                            complaints = complaints + 1;
                        },
                    }
                } else {
                    complaints = complaints + 1;
                }
                proof {
                    assert(commands_view(commands@) =~= commands_view(before) + (if i + 1 < tokens.len() && ws[i + 1] is Value { seq![commands@.last()@] } else { Seq::empty() }));
                }
                if i + 1 < tokens.len() {
                    i = i + 2;
                } else {
                    i = i + 1;
                }
            },
            Token::Value(_) => {
                proof {
                    assert(ws[i as int] is Value);
                }
            },
        }
    }
    assert(commands_view(commands@) + Seq::<CommandV>::empty() =~= commands_view(commands@));
    (commands, complaints)
}

} // verus!
