//! Replaying commands into a directory tree.

use std::collections::VecDeque;

use vstd::prelude::*;

use crate::command::{commands_of, lex_lines, lexed, strings_of, Command, CommandKind, CommandKindView, CommandView};
use crate::error::FsError;
use crate::text::{chars_of, split_lines, parse_size, parse_size_of, same_chars, seqs_of, string_of, words, words_of};
use crate::tree::{lemma_views_of, views_of, EntryView, FSEntry};

verus! {

/// The target of `cd` that moves to the parent directory.
pub open spec fn parent_word() -> Seq<char> {
    seq!['.', '.']
}

/// The entry that an `ls` output line lists: `<size> <name>` is a file, any other first
/// word (such as `dir`) a directory.
pub open spec fn listed_entry(line: Seq<char>) -> Result<EntryView, FsError> {
    let w = words(line);
    if w.len() == 0 || w.len() > 2 {
        Err(FsError::MalformedOutput)
    } else if w.len() == 1 {
        Err(FsError::MissingArgument)
    } else {
        match parse_size(w[0]) {
            Some(n) => Ok(EntryView::file(w[1], n)),
            None => Ok(EntryView::dir(w[1])),
        }
    }
}

/// The directory `d` with the entries of `lines` appended in order, or the error of the
/// first line that lists none.
pub open spec fn list_into(d: EntryView, lines: Seq<Seq<char>>) -> Result<EntryView, FsError>
    decreases lines.len(),
{
    if lines.len() == 0 {
        Ok(d)
    } else {
        match list_into(d, lines.drop_last()) {
            Err(e) => Err(e),
            Ok(d2) => match listed_entry(lines.last()) {
                Err(e) => Err(e),
                Ok(c) => Ok(d2.add_child(c)),
            },
        }
    }
}

/// The open directories, root first, once the innermost has been closed into its parent.
pub open spec fn close_top(stack: Seq<EntryView>) -> Seq<EntryView> {
    let n = stack.len();
    stack.take(n - 1).update(n - 2, stack[n - 2].add_child(stack[n - 1]))
}

/// The root, once every open directory has been closed into its parent.
pub open spec fn close_all(stack: Seq<EntryView>) -> EntryView
    decreases stack.len(),
{
    if stack.len() <= 1 {
        stack[0]
    } else {
        close_all(close_top(stack))
    }
}

/// One command applied to the open directories `stack` (root first, current last).
pub open spec fn step(stack: Seq<EntryView>, c: CommandView) -> Result<Seq<EntryView>, FsError> {
    match c.kind {
        CommandKindView::Cd(t) => if t == parent_word() {
            if stack.len() <= 1 {
                Err(FsError::InvalidOperation)
            } else {
                Ok(close_top(stack))
            }
        } else {
            Ok(stack.push(EntryView::dir(t)))
        },
        CommandKindView::Ls => match list_into(stack.last(), c.output) {
            Ok(d) => Ok(stack.update(stack.len() - 1, d)),
            Err(e) => Err(e),
        },
    }
}

/// The commands `cmds` applied in order, stopping at the first error.
pub open spec fn replay(stack: Seq<EntryView>, cmds: Seq<CommandView>) -> Result<
    Seq<EntryView>,
    FsError,
>
    decreases cmds.len(),
{
    if cmds.len() == 0 {
        Ok(stack)
    } else {
        match replay(stack, cmds.drop_last()) {
            Err(e) => Err(e),
            Ok(s) => step(s, cmds.last()),
        }
    }
}

/// The tree that `cmds` describe: the first command must be a `cd`, whose target names
/// the root; the rest are replayed from there.
pub open spec fn built(cmds: Seq<CommandView>) -> Result<EntryView, FsError> {
    if cmds.len() == 0 {
        Err(FsError::InvalidRoot)
    } else {
        match cmds[0].kind {
            CommandKindView::Ls => Err(FsError::InvalidRoot),
            CommandKindView::Cd(name) => match replay(seq![EntryView::dir(name)], cmds.skip(1)) {
                Ok(s) => Ok(close_all(s)),
                Err(e) => Err(e),
            },
        }
    }
}

/// The tree that the transcript `s` describes: its commands, replayed.
pub open spec fn transcript_tree(s: Seq<char>) -> Result<EntryView, FsError> {
    match lexed(s) {
        Ok(cmds) => built(cmds),
        Err(e) => Err(e),
    }
}

/// Reading and replaying a transcript is a function of its text: the same text gives the
/// same tree, and so the same total size.
pub proof fn lemma_transcript_deterministic(a: Seq<char>, b: Seq<char>)
    requires
        a == b,
    ensures
        transcript_tree(a) == transcript_tree(b),
        transcript_tree(a) is Ok ==> transcript_tree(a)->Ok_0.total() == transcript_tree(
            b,
        )->Ok_0.total(),
{
}

/// A transcript whose first command is `ls` has no root.
pub proof fn lemma_ls_first_has_no_root(cmds: Seq<CommandView>)
    requires
        cmds.len() > 0,
        cmds[0].kind is Ls,
    ensures
        built(cmds) == Err::<EntryView, FsError>(FsError::InvalidRoot),
{
}

/// An empty transcript, or one blank line, holds no command, and no tree can be built
/// from it.
pub proof fn lemma_empty_transcript()
    ensures
        lexed(Seq::empty()) == Ok::<Seq<CommandView>, FsError>(Seq::empty()),
        lexed(seq!['\n']) == Ok::<Seq<CommandView>, FsError>(Seq::empty()),
        transcript_tree(Seq::empty()) == Err::<EntryView, FsError>(FsError::InvalidRoot),
        transcript_tree(seq!['\n']) == Err::<EntryView, FsError>(FsError::InvalidRoot),
{
    let e = Seq::<char>::empty();
    let none = Seq::<CommandView>::empty();
    assert(split_lines(e) == seq![e]);
    assert(seq![e].drop_last() =~= Seq::<Seq<char>>::empty());
    assert(lex_lines(Seq::<Seq<char>>::empty()) == Ok::<Seq<CommandView>, FsError>(none));
    assert(lex_lines(seq![e]) == Ok::<Seq<CommandView>, FsError>(none));
    assert(seq![e, e].drop_last() =~= seq![e]);
    assert(lex_lines(seq![e, e]) == Ok::<Seq<CommandView>, FsError>(none));
    let nl = seq!['\n'];
    assert(nl.drop_last() =~= Seq::<char>::empty());
    assert(split_lines(nl) == seq![Seq::<char>::empty(), Seq::<char>::empty()]);
    let lines = split_lines(nl);
    assert(lines.drop_last() =~= seq![Seq::<char>::empty()]);
    assert(seq![Seq::<char>::empty()].drop_last() =~= Seq::<Seq<char>>::empty());
}

/// Replaying `p + q` is replaying `p`, then `q` from where `p` left off.
pub proof fn lemma_replay_concat(stack: Seq<EntryView>, p: Seq<CommandView>, q: Seq<CommandView>)
    ensures
        replay(stack, p + q) == match replay(stack, p) {
            Ok(s) => replay(s, q),
            Err(e) => Err(e),
        },
    decreases q.len(),
{
    if q.len() == 0 {
        assert(p + q =~= p);
    } else {
        lemma_replay_concat(stack, p, q.drop_last());
        assert((p + q).drop_last() =~= p + q.drop_last());
        assert((p + q).last() == q.last());
    }
}

/// A `cd ..` at the root, whatever came before it and whatever follows it, fails the
/// whole replay with `InvalidOperation`.
pub proof fn lemma_ascend_past_root(
    root: Seq<char>,
    before: Seq<CommandView>,
    after: Seq<CommandView>,
)
    requires
        replay(seq![EntryView::dir(root)], before) matches Ok(s) && s.len() == 1,
    ensures
        built(
            seq![CommandView { kind: CommandKindView::Cd(root), output: Seq::empty() }] + before
                + seq![CommandView { kind: CommandKindView::Cd(parent_word()), output: Seq::empty() }]
                + after,
        ) == Err::<EntryView, FsError>(FsError::InvalidOperation),
{
    let first = seq![CommandView { kind: CommandKindView::Cd(root), output: Seq::empty() }];
    let up = seq![CommandView { kind: CommandKindView::Cd(parent_word()), output: Seq::empty() }];
    let cmds = first + before + up + after;
    let init = seq![EntryView::dir(root)];
    assert(cmds.skip(1) =~= before + (up + after));
    lemma_replay_concat(init, before, up + after);
    let s = replay(init, before)->Ok_0;
    lemma_replay_concat(s, up, after);
    assert(up.drop_last() =~= Seq::<CommandView>::empty());
    assert(replay(s, Seq::<CommandView>::empty()) == Ok::<Seq<EntryView>, FsError>(s));
    assert(up.last().kind == CommandKindView::Cd(parent_word()));
    assert(step(s, up.last()) == Err::<Seq<EntryView>, FsError>(FsError::InvalidOperation));
    assert(replay(s, up) == Err::<Seq<EntryView>, FsError>(FsError::InvalidOperation));
    assert(cmds[0] == first[0]);
}

/// Every entry of `stack` is a well-formed directory.
pub open spec fn all_open_dirs(stack: Seq<EntryView>) -> bool {
    forall|i: int| 0 <= i < stack.len() ==> (#[trigger] stack[i]).wf() && stack[i].is_dir()
}

proof fn lemma_add_child_wf(d: EntryView, c: EntryView)
    requires
        d.wf(),
        d.is_dir(),
        c.wf(),
    ensures
        d.add_child(c).wf(),
        d.add_child(c).is_dir(),
{
    let kids = d.children->Some_0;
    assert(kids.push(c).drop_last() =~= kids);
}

proof fn lemma_list_into_wf(d: EntryView, lines: Seq<Seq<char>>)
    requires
        d.wf(),
        d.is_dir(),
        list_into(d, lines) is Ok,
    ensures
        list_into(d, lines)->Ok_0.wf(),
        list_into(d, lines)->Ok_0.is_dir(),
    decreases lines.len(),
{
    if lines.len() > 0 {
        lemma_list_into_wf(d, lines.drop_last());
        let d2 = list_into(d, lines.drop_last())->Ok_0;
        let c = listed_entry(lines.last())->Ok_0;
        assert(Seq::<EntryView>::empty().len() == 0);
        assert(c.wf());
        lemma_add_child_wf(d2, c);
    }
}

proof fn lemma_replay_wf(stack: Seq<EntryView>, cmds: Seq<CommandView>)
    requires
        stack.len() >= 1,
        all_open_dirs(stack),
        replay(stack, cmds) is Ok,
    ensures
        replay(stack, cmds)->Ok_0.len() >= 1,
        all_open_dirs(replay(stack, cmds)->Ok_0),
    decreases cmds.len(),
{
    if cmds.len() > 0 {
        lemma_replay_wf(stack, cmds.drop_last());
        let s = replay(stack, cmds.drop_last())->Ok_0;
        let n = s.len();
        match cmds.last().kind {
            CommandKindView::Cd(t) => {
                if t == parent_word() {
                    lemma_add_child_wf(s[n - 2], s[n - 1]);
                } else {
                    assert(EntryView::dir(t).wf());
                }
            },
            CommandKindView::Ls => {
                lemma_list_into_wf(s[n - 1], cmds.last().output);
            },
        }
    }
}

proof fn lemma_close_all_wf(stack: Seq<EntryView>)
    requires
        stack.len() >= 1,
        all_open_dirs(stack),
    ensures
        close_all(stack).wf(),
    decreases stack.len(),
{
    if stack.len() > 1 {
        let n = stack.len();
        lemma_add_child_wf(stack[n - 2], stack[n - 1]);
        lemma_close_all_wf(close_top(stack));
    }
}

/// Every tree that replaying commands builds is well formed: each entry is a file or a
/// directory, never both, never neither.
pub proof fn lemma_built_wf(cmds: Seq<CommandView>)
    requires
        built(cmds) is Ok,
    ensures
        built(cmds)->Ok_0.wf(),
{
    let name = cmds[0].kind->Cd_0;
    let init = seq![EntryView::dir(name)];
    assert(init[0].wf());
    lemma_replay_wf(init, cmds.skip(1));
    lemma_close_all_wf(replay(init, cmds.skip(1))->Ok_0);
}

proof fn lemma_list_error_stays(d: EntryView, lines: Seq<Seq<char>>, j: int)
    requires
        0 <= j <= lines.len(),
        list_into(d, lines.take(j)) is Err,
    ensures
        list_into(d, lines) == list_into(d, lines.take(j)),
    decreases lines.len(),
{
    if j == lines.len() {
        assert(lines.take(j) =~= lines);
    } else {
        assert(lines.drop_last().take(j) =~= lines.take(j));
        lemma_list_error_stays(d, lines.drop_last(), j);
    }
}

proof fn lemma_replay_error_stays(stack: Seq<EntryView>, cmds: Seq<CommandView>, j: int)
    requires
        0 <= j <= cmds.len(),
        replay(stack, cmds.take(j)) is Err,
    ensures
        replay(stack, cmds) == replay(stack, cmds.take(j)),
    decreases cmds.len(),
{
    if j == cmds.len() {
        assert(cmds.take(j) =~= cmds);
    } else {
        assert(cmds.drop_last().take(j) =~= cmds.take(j));
        lemma_replay_error_stays(stack, cmds.drop_last(), j);
    }
}

/// Reads the `ls` output line `line` as the entry that it lists (see `listed_entry`).
pub fn parse_listing(line: &str) -> (r: Result<FSEntry, FsError>)
    ensures
        match r {
            Ok(e) => listed_entry(line@) == Ok::<EntryView, FsError>(e@),
            Err(x) => listed_entry(line@) == Err::<EntryView, FsError>(x),
        },
{
    let chars = chars_of(line);
    let w = words_of(&chars);
    assert(seqs_of(w@).len() == w@.len());
    if w.len() == 0 || w.len() > 2 {
        return Err(FsError::MalformedOutput);
    }
    if w.len() == 1 {
        return Err(FsError::MissingArgument);
    }
    assert(seqs_of(w@)[0] == w@[0]@);
    assert(seqs_of(w@)[1] == w@[1]@);
    let name = string_of(&w[1]);
    match parse_size_of(&w[0]) {
        Some(n) => Ok(FSEntry::new(name, None, Some(n))),
        None => {
            let kids: Vec<FSEntry> = Vec::new();
            assert(views_of(kids@) =~= Seq::<EntryView>::empty());
            Ok(FSEntry::new(name, Some(kids), None))
        },
    }
}

/// The directory `d` with the entries listed by `output` appended (see `list_into`).
fn list_output(d: FSEntry, output: &Vec<String>) -> (r: Result<FSEntry, FsError>)
    requires
        d.children is Some,
    ensures
        match r {
            Ok(e) => e.children is Some && list_into(d@, strings_of(output@)) == Ok::<
                EntryView,
                FsError,
            >(e@),
            Err(x) => list_into(d@, strings_of(output@)) == Err::<EntryView, FsError>(x),
        },
{
    let ghost lines = strings_of(output@);
    let ghost d0 = d@;
    let mut cur = d;
    let mut j: usize = 0;
    assert(lines.take(0) =~= Seq::<Seq<char>>::empty());
    while j < output.len()
        invariant
            j <= output.len(),
            lines == strings_of(output@),
            d0 == d@,
            cur.children is Some,
            list_into(d0, lines.take(j as int)) == Ok::<EntryView, FsError>(cur@),
        decreases output.len() - j,
    {
        assert(lines.take(j + 1).drop_last() =~= lines.take(j as int));
        assert(lines.take(j + 1).last() == output@[j as int]@);
        match parse_listing(output[j].as_str()) {
            Ok(c) => {
                cur = cur.with_child(c);
            },
            Err(x) => {
                assert(list_into(d0, lines.take(j + 1)) == Err::<EntryView, FsError>(x));
                proof {
                    lemma_list_error_stays(d0, lines, j + 1);
                }
                assert(list_into(d0, lines) == Err::<EntryView, FsError>(x));
                return Err(x);
            },
        }
        j = j + 1;
    }
    assert(lines.take(j as int) =~= lines);
    Ok(cur)
}

/// Closes the innermost open directory into its parent.
fn close_innermost(stack: &mut Vec<FSEntry>)
    requires
        old(stack).len() >= 2,
        forall|k: int| 0 <= k < old(stack).len() ==> (#[trigger] old(stack)@[k]).children is Some,
    ensures
        final(stack).len() == old(stack).len() - 1,
        forall|k: int| 0 <= k < final(stack).len() ==> (#[trigger] final(stack)@[k]).children is Some,
        views_of(final(stack)@) == close_top(views_of(old(stack)@)),
{
    let ghost before = stack@;
    let top = stack.pop().unwrap();
    let parent = stack.pop().unwrap();
    stack.push(parent.with_child(top));
    proof {
        lemma_views_of(before);
        lemma_views_of(stack@);
        assert(views_of(stack@) =~= close_top(views_of(before)));
    }
}

/// Applies the command `cmd` to the open directories `stack` (see `step`).
fn apply(stack: &mut Vec<FSEntry>, cmd: &Command, dots: &Vec<char>) -> (r: Result<(), FsError>)
    requires
        dots@ == parent_word(),
        old(stack).len() >= 1,
        forall|k: int| 0 <= k < old(stack).len() ==> (#[trigger] old(stack)@[k]).children is Some,
    ensures
        match r {
            Ok(_) => step(views_of(old(stack)@), cmd@) == Ok::<Seq<EntryView>, FsError>(
                views_of(final(stack)@),
            ),
            Err(x) => step(views_of(old(stack)@), cmd@) == Err::<Seq<EntryView>, FsError>(x),
        },
        r is Ok ==> final(stack).len() >= 1,
        r is Ok ==> forall|k: int|
            0 <= k < final(stack).len() ==> (#[trigger] final(stack)@[k]).children is Some,
{
    let ghost before = stack@;
    proof {
        lemma_views_of(before);
    }
    match &cmd.kind {
        CommandKind::Cd(t) => {
            let tc = chars_of(t.as_str());
            if same_chars(&tc, dots) {
                if stack.len() == 1 {
                    return Err(FsError::InvalidOperation);
                }
                close_innermost(stack);
                assert(step(views_of(before), cmd@) == Ok::<Seq<EntryView>, FsError>(
                    views_of(stack@),
                ));
            } else {
                let kids: Vec<FSEntry> = Vec::new();
                assert(views_of(kids@) =~= Seq::<EntryView>::empty());
                let name = t.clone();
                let e = FSEntry::new(name, Some(kids), None);
                assert(e@ == EntryView::dir(t@));
                stack.push(e);
                assert(stack@.drop_last() =~= before);
                assert(views_of(stack@) == views_of(before).push(e@));
                assert(tc@ != parent_word());
                assert(step(views_of(before), cmd@) == Ok::<Seq<EntryView>, FsError>(
                    views_of(stack@),
                ));
            }
        },
        CommandKind::Ls => {
            let top = stack.pop().unwrap();
            match list_output(top, &cmd.output) {
                Ok(d) => {
                    stack.push(d);
                    proof {
                        lemma_views_of(stack@);
                        assert(views_of(stack@) =~= views_of(before).update(before.len() - 1, d@));
                    }
                    assert(step(views_of(before), cmd@) == Ok::<Seq<EntryView>, FsError>(
                        views_of(stack@),
                    ));
                },
                Err(x) => {
                    return Err(x);
                },
            }
        },
    }
    Ok(())
}

/// Replays the commands `cmds` into a directory tree and returns its root (see `built`).
/// The first command must be a `cd`, whose target names the root. A `cd` into any other
/// name than `..` adds a new directory to the current one and enters it, and each `ls`
/// adds the entries it lists: a directory entered or listed twice appears twice.
pub fn build_fs(cmds: VecDeque<Command>) -> (r: Result<FSEntry, FsError>)
    ensures
        match r {
            Ok(e) => built(commands_of(cmds@)) == Ok::<EntryView, FsError>(e@) && e@.wf(),
            Err(x) => built(commands_of(cmds@)) == Err::<EntryView, FsError>(x),
        },
{
    let ghost all = commands_of(cmds@);
    if cmds.len() == 0 {
        return Err(FsError::InvalidRoot);
    }
    assert(all[0] == cmds@[0]@);
    let root_name = match &cmds[0].kind {
        CommandKind::Cd(t) => t.clone(),
        CommandKind::Ls => {
            return Err(FsError::InvalidRoot);
        },
    };
    let ghost rest = all.skip(1);
    let ghost rname = root_name@;
    let ghost init = seq![EntryView::dir(rname)];
    assert(all[0].kind == CommandKindView::Cd(rname));
    let kids: Vec<FSEntry> = Vec::new();
    assert(views_of(kids@) =~= Seq::<EntryView>::empty());
    let mut stack: Vec<FSEntry> = Vec::new();
    stack.push(FSEntry::new(root_name, Some(kids), None));
    assert(views_of(stack@) =~= init) by {
        lemma_views_of(stack@);
    }
    assert(rest.take(0) =~= Seq::<CommandView>::empty());
    let dots = vec!['.', '.'];
    assert(dots@ =~= parent_word());
    let mut i: usize = 1;
    while i < cmds.len()
        invariant
            1 <= i <= cmds.len(),
            all == commands_of(cmds@),
            rest == all.skip(1),
            all[0].kind == CommandKindView::Cd(rname),
            init == seq![EntryView::dir(rname)],
            dots@ == parent_word(),
            stack.len() >= 1,
            forall|k: int| 0 <= k < stack.len() ==> (#[trigger] stack@[k]).children is Some,
            replay(init, rest.take(i - 1)) == Ok::<Seq<EntryView>, FsError>(views_of(stack@)),
        decreases cmds.len() - i,
    {
        let cmd = &cmds[i];
        assert(rest.take(i as int).drop_last() =~= rest.take(i - 1));
        assert(rest.take(i as int).last() == cmd@);
        if let Err(x) = apply(&mut stack, cmd, &dots) {
            proof {
                lemma_replay_error_stays(init, rest, i as int);
            }
            assert(rest.take(rest.len() as int) =~= rest);
            return Err(x);
        }
        i = i + 1;
    }
    assert(rest.take(i - 1) =~= rest);
    let ghost opened = views_of(stack@);
    while stack.len() > 1
        invariant
            stack.len() >= 1,
            forall|k: int| 0 <= k < stack.len() ==> (#[trigger] stack@[k]).children is Some,
            close_all(views_of(stack@)) == close_all(opened),
        decreases stack.len(),
    {
        proof {
            lemma_views_of(stack@);
        }
        assert(close_all(views_of(stack@)) == close_all(close_top(views_of(stack@))));
        close_innermost(&mut stack);
    }
    proof {
        lemma_views_of(stack@);
        lemma_built_wf(all);
    }
    Ok(stack.pop().unwrap())
}

} // verus!
