use fs_replay::command::{lex, CommandKind};
use fs_replay::error::FsError;
use fs_replay::replay::{build_fs, parse_listing};
use fs_replay::tree::FSEntry;

const PUZZLE_INPUT: &str = r#"
$ cd /
$ ls
dir a
14848514 b.txt
8504156 c.dat
dir d
$ cd a
$ ls
dir e
29116 f
2557 g
62596 h.lst
$ cd e
$ ls
584 i
$ cd ..
$ cd ..
$ cd d
$ ls
4060174 j
8033020 d.log
5626152 d.ext
7214296 k
"#;

const MAGIC_NUMBER: usize = 95437;

fn tree_of(input: &str) -> Result<FSEntry, FsError> {
    build_fs(lex(input)?)
}

/// The last child named `name`: `cd` adds a directory beside the one `ls` listed.
fn child<'a>(e: &'a FSEntry, name: &str) -> &'a FSEntry {
    e.children
        .as_ref()
        .expect("a directory")
        .iter()
        .rev()
        .find(|c| c.name == name)
        .expect("a child of that name")
}

#[test]
fn test_solution() {
    let fs = build_fs(lex(PUZZLE_INPUT.trim()).expect("Lexing should not fail"))
        .expect("Building the file system DAG should not fail");

    assert_eq!(fs.prunable_size(), MAGIC_NUMBER);
}

#[test]
fn canonical_total_and_prunable() {
    let fs = tree_of(PUZZLE_INPUT.trim()).unwrap();
    assert_eq!(fs.name, "/");
    assert_eq!(fs.size(), 48381165);
    assert_eq!(fs.prunable_size(), 95437);
    let a = child(&fs, "a");
    assert_eq!(a.size(), 94853);
    assert_eq!(child(a, "e").size(), 584);
    assert_eq!(child(&fs, "d").size(), 24933642);
    // "dir a" from ls, then a second "a" from cd.
    let names: Vec<&str> = fs.children.as_ref().unwrap().iter().map(|c| c.name.as_str()).collect();
    assert_eq!(names, vec!["a", "b.txt", "c.dat", "d", "a", "d"]);
}

#[test]
fn leading_blank_line_is_skipped() {
    let fs = tree_of(PUZZLE_INPUT.trim_end()).unwrap();
    assert_eq!(fs.size(), 48381165);
}

#[test]
fn lex_groups_output_under_commands() {
    let cmds = lex("$ cd /\n$ ls\ndir a\n12 b\n$ cd a").unwrap();
    assert_eq!(cmds.len(), 3);
    assert!(matches!(&cmds[0].kind, CommandKind::Cd(t) if t == "/"));
    assert!(cmds[0].output.is_empty());
    assert!(matches!(cmds[1].kind, CommandKind::Ls));
    assert_eq!(cmds[1].output, vec!["dir a".to_string(), "12 b".to_string()]);
    assert!(matches!(&cmds[2].kind, CommandKind::Cd(t) if t == "a"));
}

#[test]
fn lex_ignores_words_after_ls_and_cd_target() {
    let cmds = lex("$  cd   x  y\n$ ls -l").unwrap();
    assert!(matches!(&cmds[0].kind, CommandKind::Cd(t) if t == "x"));
    assert!(matches!(cmds[1].kind, CommandKind::Ls));
}

#[test]
fn queries_are_idempotent() {
    let fs = tree_of(PUZZLE_INPUT.trim()).unwrap();
    assert_eq!(fs.size(), fs.size());
    assert_eq!(fs.prunable_size(), fs.prunable_size());
}

#[test]
fn directory_size_is_sum_of_children() {
    let fs = tree_of(PUZZLE_INPUT.trim()).unwrap();
    let sum: usize = fs.children.as_ref().unwrap().iter().map(|c| c.size()).sum();
    assert_eq!(fs.size(), sum);
}

#[test]
fn file_size_is_declared_size() {
    let fs = tree_of(PUZZLE_INPUT.trim()).unwrap();
    let b = child(&fs, "b.txt");
    assert!(b.children.is_none());
    assert_eq!(b.implicit_size, Some(14848514));
    assert_eq!(b.size(), 14848514);
}

#[test]
fn ascend_past_root_fails() {
    assert_eq!(tree_of("$ cd /\n$ cd ..").unwrap_err(), FsError::InvalidOperation);
    assert_eq!(
        tree_of("$ cd /\n$ cd a\n$ cd ..\n$ cd ..").unwrap_err(),
        FsError::InvalidOperation
    );
}

#[test]
fn first_command_ls_fails() {
    assert_eq!(tree_of("$ ls\n14 a").unwrap_err(), FsError::InvalidRoot);
}

#[test]
fn prunable_threshold_is_inclusive() {
    let fs = tree_of("$ cd /\n$ ls\ndir a\n$ cd a\n$ ls\n100000 f").unwrap();
    assert_eq!(fs.prunable_size(), 100000);
    let fs = tree_of("$ cd /\n$ ls\ndir a\n$ cd a\n$ ls\n100001 f").unwrap();
    assert_eq!(fs.prunable_size(), 0);
}

#[test]
fn nested_small_directories_count_again() {
    let fs = tree_of("$ cd /\n$ cd a\n$ cd b\n$ ls\n10 f").unwrap();
    // a holds 10 bytes and so does b inside it: both count.
    assert_eq!(fs.prunable_size(), 20);
}

#[test]
fn empty_input_lexes_to_nothing() {
    assert_eq!(lex("").unwrap().len(), 0);
    assert_eq!(lex("\n").unwrap().len(), 0);
    assert_eq!(tree_of("").unwrap_err(), FsError::InvalidRoot);
    assert_eq!(tree_of("\n").unwrap_err(), FsError::InvalidRoot);
}

#[test]
fn command_errors() {
    assert_eq!(lex("$ cd").unwrap_err(), FsError::MissingArgument);
    assert_eq!(lex("$").unwrap_err(), FsError::MissingArgument);
    assert_eq!(lex("$ rm x").unwrap_err(), FsError::InvalidCommand);
    assert_eq!(lex("$ cd /\n1 a\n$ pwd").unwrap_err(), FsError::InvalidCommand);
    assert_eq!(CommandKind::try_from("$ ls".to_string()).map(|_| ()), Ok(()));
}

#[test]
fn listing_errors() {
    assert_eq!(tree_of("$ cd /\n$ ls\n123").unwrap_err(), FsError::MissingArgument);
    assert_eq!(tree_of("$ cd /\n$ ls\n1 a b").unwrap_err(), FsError::MalformedOutput);
    assert_eq!(tree_of("$ cd /\n$ ls\n1 a\n").unwrap_err(), FsError::MalformedOutput);
    assert_eq!(parse_listing("   ").unwrap_err(), FsError::MalformedOutput);
}

#[test]
fn listing_sizes() {
    let f = parse_listing("+42 x").unwrap();
    assert_eq!(f.name, "x");
    assert_eq!(f.implicit_size, Some(42));
    let d = parse_listing("dir y").unwrap();
    assert_eq!(d.name, "y");
    assert!(d.children.as_ref().unwrap().is_empty());
    assert_eq!(d.implicit_size, None);
    let big = parse_listing("99999999999999999999999 z").unwrap();
    assert!(big.children.is_some());
    let max = parse_listing("18446744073709551615 m").unwrap();
    assert_eq!(max.implicit_size, Some(usize::MAX));
}

#[test]
fn repeated_listing_duplicates_children() {
    let fs = tree_of("$ cd /\n$ ls\n5 a\n$ ls\n5 a").unwrap();
    assert_eq!(fs.children.as_ref().unwrap().len(), 2);
    assert_eq!(fs.size(), 10);
}

#[test]
fn deterministic_pipeline() {
    let a = tree_of(PUZZLE_INPUT.trim()).unwrap();
    let b = tree_of(PUZZLE_INPUT.trim()).unwrap();
    assert_eq!(a.size(), b.size());
}

#[test]
fn unicode_names_are_kept() {
    let fs = tree_of("$ cd racine\n$ ls\n7 été.txt").unwrap();
    assert_eq!(fs.name, "racine");
    assert_eq!(child(&fs, "été.txt").size(), 7);
}

#[test]
fn small_directory_under_large_one_counts() {
    let fs = tree_of("$ cd /\n$ ls\ndir b\n$ cd b\n$ ls\n200000 f\ndir s\n$ cd s\n$ ls\n10 g")
        .unwrap();
    assert_eq!(child(&fs, "b").size(), 200010);
    assert_eq!(fs.prunable_size(), 10);
}

#[test]
fn unicode_whitespace_separates_words() {
    let cmds = lex("$ cd\u{0B}x").unwrap();
    assert!(matches!(&cmds[0].kind, CommandKind::Cd(t) if t == "x"));
    let cmds = lex("$\u{3000}ls").unwrap();
    assert!(matches!(cmds[0].kind, CommandKind::Ls));
    let f = parse_listing("5\u{A0}a").unwrap();
    assert_eq!(f.name, "a");
    assert_eq!(f.implicit_size, Some(5));
    assert_eq!(parse_listing("5 a\u{A0}b").unwrap_err(), FsError::MalformedOutput);
}
