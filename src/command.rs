//! Commands of a transcript and the lexer that reads them.

use std::collections::VecDeque;

use vstd::prelude::*;

use crate::error::FsError;
use crate::text::{chars_of, lines_of, same_chars, seqs_of, split_lines, string_of, words, words_of};

verus! {

/// The model of a [`CommandKind`].
pub enum CommandKindView {
    Cd(Seq<char>),
    Ls,
}

/// The model of a [`Command`].
pub struct CommandView {
    pub kind: CommandKindView,
    pub output: Seq<Seq<char>>,
}

/// `cd <target>` or `ls`.
#[derive(Debug)]
pub enum CommandKind {
    Cd(String),
    Ls,
}

/// A command and the lines that it printed.
#[derive(Debug)]
pub struct Command {
    pub kind: CommandKind,
    pub output: Vec<String>,
}

impl View for CommandKind {
    type V = CommandKindView;

    open spec fn view(&self) -> CommandKindView {
        match self {
            CommandKind::Cd(t) => CommandKindView::Cd(t@),
            CommandKind::Ls => CommandKindView::Ls,
        }
    }
}

impl View for Command {
    type V = CommandView;

    open spec fn view(&self) -> CommandView {
        CommandView { kind: self.kind@, output: strings_of(self.output@) }
    }
}

/// The views of the strings `v`, in order.
pub open spec fn strings_of(v: Seq<String>) -> Seq<Seq<char>> {
    v.map_values(|x: String| x@)
}

/// The models of the commands `v`, in order.
pub open spec fn commands_of(v: Seq<Command>) -> Seq<CommandView> {
    v.map_values(|c: Command| c@)
}

/// The command that changes directory.
pub open spec fn cd_word() -> Seq<char> {
    seq!['c', 'd']
}

/// The command that lists a directory.
pub open spec fn ls_word() -> Seq<char> {
    seq!['l', 's']
}

/// A line that starts with the prompt character `$`.
pub open spec fn is_command_line(l: Seq<char>) -> bool {
    l.len() > 0 && l[0] == '$'
}

/// What the command line `l` asks for. Its first word is the prompt; the second names
/// the command; `cd` takes the third as its target; words after those are ignored.
pub open spec fn parse_command(l: Seq<char>) -> Result<CommandKindView, FsError> {
    let w = words(l);
    if w.len() < 2 {
        Err(FsError::MissingArgument)
    } else if w[1] == cd_word() {
        if w.len() < 3 {
            Err(FsError::MissingArgument)
        } else {
            Ok(CommandKindView::Cd(w[2]))
        }
    } else if w[1] == ls_word() {
        Ok(CommandKindView::Ls)
    } else {
        Err(FsError::InvalidCommand)
    }
}

/// The commands of `lines`, read in order. Empty lines before the first command are
/// skipped. The first other line, and then each line that starts with the prompt,
/// begins a command; every other line is output of the command before it. The first
/// command line that cannot be parsed gives the error.
pub open spec fn lex_lines(lines: Seq<Seq<char>>) -> Result<Seq<CommandView>, FsError>
    decreases lines.len(),
{
    if lines.len() == 0 {
        Ok(Seq::empty())
    } else {
        match lex_lines(lines.drop_last()) {
            Err(e) => Err(e),
            Ok(cs) => {
                let l = lines.last();
                if cs.len() == 0 && l.len() == 0 {
                    Ok(cs)
                } else if cs.len() == 0 || is_command_line(l) {
                    match parse_command(l) {
                        Ok(k) => Ok(cs.push(CommandView { kind: k, output: Seq::empty() })),
                        Err(e) => Err(e),
                    }
                } else {
                    let c = cs.last();
                    Ok(cs.update(cs.len() - 1, CommandView { kind: c.kind, output: c.output.push(l) }))
                }
            },
        }
    }
}

/// The commands of the transcript `s`, whose lines are separated by line feeds.
pub open spec fn lexed(s: Seq<char>) -> Result<Seq<CommandView>, FsError> {
    lex_lines(split_lines(s))
}

proof fn lemma_lex_error_stays(lines: Seq<Seq<char>>, j: int)
    requires
        0 <= j <= lines.len(),
        lex_lines(lines.take(j)) is Err,
    ensures
        lex_lines(lines) == lex_lines(lines.take(j)),
    decreases lines.len(),
{
    if j == lines.len() {
        assert(lines.take(j) =~= lines);
    } else {
        assert(lines.drop_last().take(j) =~= lines.take(j));
        lemma_lex_error_stays(lines.drop_last(), j);
    }
}

impl CommandKind {
    /// Parses the command line `value` (see `parse_command`).
    pub fn try_from(value: String) -> (r: Result<CommandKind, FsError>)
        ensures
            match r {
                Ok(k) => parse_command(value@) == Ok::<CommandKindView, FsError>(k@),
                Err(e) => parse_command(value@) == Err::<CommandKindView, FsError>(e),
            },
    {
        let chars = chars_of(value.as_str());
        let w = words_of(&chars);
        proof {
            assert(seqs_of(w@).len() == w@.len());
        }
        if w.len() < 2 {
            return Err(FsError::MissingArgument);
        }
        let cd = vec!['c', 'd'];
        let ls = vec!['l', 's'];
        assert(cd@ =~= cd_word());
        assert(ls@ =~= ls_word());
        assert(seqs_of(w@)[1] == w@[1]@);
        if same_chars(&w[1], &cd) {
            if w.len() < 3 {
                return Err(FsError::MissingArgument);
            }
            assert(seqs_of(w@)[2] == w@[2]@);
            Ok(CommandKind::Cd(string_of(&w[2])))
        } else if same_chars(&w[1], &ls) {
            Ok(CommandKind::Ls)
        } else {
            Err(FsError::InvalidCommand)
        }
    }
}

/// Reads the transcript `input` into its commands, each with the lines that it printed.
pub fn lex(input: &str) -> (r: Result<VecDeque<Command>, FsError>)
    ensures
        match r {
            Ok(cs) => lexed(input@) == Ok::<Seq<CommandView>, FsError>(commands_of(cs@)),
            Err(e) => lexed(input@) == Err::<Seq<CommandView>, FsError>(e),
        },
{
    let chars = chars_of(input);
    let lines = lines_of(&chars);
    let ghost all = seqs_of(lines@);
    let mut cmds: VecDeque<Command> = VecDeque::new();
    let mut i: usize = 0;
    assert(all.take(0) =~= Seq::<Seq<char>>::empty());
    assert(commands_of(cmds@) =~= Seq::<CommandView>::empty());
    while i < lines.len()
        invariant
            i <= lines.len(),
            all == seqs_of(lines@),
            all == split_lines(input@),
            lex_lines(all.take(i as int)) == Ok::<Seq<CommandView>, FsError>(commands_of(cmds@)),
        decreases lines.len() - i,
    {
        let l = &lines[i];
        assert(all.take(i + 1).drop_last() =~= all.take(i as int));
        assert(all.take(i + 1).last() == l@);
        if cmds.len() == 0 && l.len() == 0 {
        } else if cmds.len() == 0 || (l.len() > 0 && l[0] == '$') {
            match CommandKind::try_from(string_of(l)) {
                Ok(kind) => {
                    let ghost before = cmds@;
                    let output: Vec<String> = Vec::new();
                    assert(strings_of(output@) =~= Seq::empty());
                    cmds.push_back(Command { kind, output });
                    assert(commands_of(cmds@) =~= commands_of(before).push(cmds@.last()@));
                },
                Err(e) => {
                    proof {
                        lemma_lex_error_stays(all, i + 1);
                    }
                    assert(all.take(lines.len() as int) =~= all);
                    return Err(e);
                },
            }
        } else {
            let ghost before = cmds@;
            let mut c = cmds.pop_back().unwrap();
            let ghost old_out = c.output@;
            c.output.push(string_of(l));
            assert(strings_of(c.output@) =~= strings_of(old_out).push(l@));
            cmds.push_back(c);
            assert(commands_of(cmds@) =~= commands_of(before).update(
                before.len() - 1,
                cmds@.last()@,
            ));
        }
        i = i + 1;
    }
    assert(all.take(i as int) =~= all);
    Ok(cmds)
}

} // verus!
