use aocfs::parser::{parse_aoc, Entry, EntryKind, ParseError};

#[test]
fn single_file_in_root() {
    let input = "$ cd /\n$ ls\n1234 a.txt";
    let entries = parse_aoc(input).unwrap();
    assert_eq!(
        &entries,
        &[
            Entry {
                id: 1,
                parent_id: 1,
                name: "".to_owned(),
                kind: EntryKind::Directory {
                    children: vec![("a.txt".to_owned(), 2)]
                },
            },
            Entry {
                id: 2,
                parent_id: 1,
                name: "a.txt".to_owned(),
                kind: EntryKind::File { size: 1234 }
            }
        ]
    );
}

#[test]
fn many_files_in_root() {
    let input = "$ cd /\n$ ls\n1234 a.txt\n5555 b.txt\n1 c.txt\n13512362346 d.txt";
    let entries = parse_aoc(input).unwrap();
    assert_eq!(
        &entries,
        &[
            Entry {
                id: 1,
                parent_id: 1,
                name: "".to_owned(),
                kind: EntryKind::Directory {
                    children: vec![
                        ("a.txt".to_owned(), 2),
                        ("b.txt".to_owned(), 3),
                        ("c.txt".to_owned(), 4),
                        ("d.txt".to_owned(), 5)
                    ]
                },
            },
            Entry {
                id: 2,
                parent_id: 1,
                name: "a.txt".to_owned(),
                kind: EntryKind::File { size: 1234 }
            },
            Entry {
                id: 3,
                parent_id: 1,
                name: "b.txt".to_owned(),
                kind: EntryKind::File { size: 5555 }
            },
            Entry {
                id: 4,
                parent_id: 1,
                name: "c.txt".to_owned(),
                kind: EntryKind::File { size: 1 }
            },
            Entry {
                id: 5,
                parent_id: 1,
                name: "d.txt".to_owned(),
                kind: EntryKind::File { size: 13512362346 }
            }
        ]
    );
}

#[test]
fn single_dir_in_root() {
    let input = "$ cd /\n$ ls\ndir foo";
    let entries = parse_aoc(input).unwrap();
    assert_eq!(
        &entries,
        &[
            Entry {
                id: 1,
                parent_id: 1,
                name: "".to_owned(),
                kind: EntryKind::Directory {
                    children: vec![("foo".to_owned(), 2)]
                },
            },
            Entry {
                id: 2,
                parent_id: 1,
                name: "foo".to_owned(),
                kind: EntryKind::Directory {
                    children: vec![("..".to_owned(), 1)]
                }
            }
        ]
    );
}

#[test]
fn single_file_in_single_dir_in_root() {
    let input = "$ cd /\n$ ls\ndir foo\n$ cd foo\n$ ls\n1234 a.txt";
    let entries = parse_aoc(input).unwrap();
    assert_eq!(
        &entries,
        &[
            Entry {
                id: 1,
                parent_id: 1,
                name: "".to_owned(),
                kind: EntryKind::Directory {
                    children: vec![("foo".to_owned(), 2)]
                },
            },
            Entry {
                id: 2,
                parent_id: 1,
                name: "foo".to_owned(),
                kind: EntryKind::Directory {
                    children: vec![("..".to_owned(), 1), ("a.txt".to_owned(), 3)]
                }
            },
            Entry {
                id: 3,
                parent_id: 2,
                name: "a.txt".to_owned(),
                kind: EntryKind::File { size: 1234 }
            }
        ]
    );
}

#[test]
fn aoc_example() {
    let input = "$ cd /\n$ ls\ndir a\n14848514 b.txt\n8504156 c.dat\ndir d\n$ cd a\n$ ls\ndir e\n29116 f\n2557 g\n62596 h.lst\n$ cd e\n$ ls\n584 i\n$ cd ..\n$ cd ..\n$ cd d\n$ ls\n4060174 j\n8033020 d.log\n5626152 d.ext\n7214296 k";
    let entries = parse_aoc(input).unwrap();
    assert_eq!(
        &entries,
        &[
            Entry {
                id: 1,
                parent_id: 1,
                name: "".to_owned(),
                kind: EntryKind::Directory {
                    children: vec![
                        ("a".to_owned(), 2),
                        ("b.txt".to_owned(), 3),
                        ("c.dat".to_owned(), 4),
                        ("d".to_owned(), 5),
                    ],
                },
            },
            Entry {
                id: 2,
                parent_id: 1,
                name: "a".to_owned(),
                kind: EntryKind::Directory {
                    children: vec![
                        ("..".to_owned(), 1),
                        ("e".to_owned(), 6),
                        ("f".to_owned(), 7),
                        ("g".to_owned(), 8),
                        ("h.lst".to_owned(), 9),
                    ],
                },
            },
            Entry {
                id: 3,
                parent_id: 1,
                name: "b.txt".to_owned(),
                kind: EntryKind::File { size: 14848514 },
            },
            Entry {
                id: 4,
                parent_id: 1,
                name: "c.dat".to_owned(),
                kind: EntryKind::File { size: 8504156 },
            },
            Entry {
                id: 5,
                parent_id: 1,
                name: "d".to_owned(),
                kind: EntryKind::Directory {
                    children: vec![
                        ("..".to_owned(), 1),
                        ("j".to_owned(), 11),
                        ("d.log".to_owned(), 12),
                        ("d.ext".to_owned(), 13),
                        ("k".to_owned(), 14),
                    ],
                },
            },
            Entry {
                id: 6,
                parent_id: 2,
                name: "e".to_owned(),
                kind: EntryKind::Directory {
                    children: vec![("..".to_owned(), 2), ("i".to_owned(), 10),],
                },
            },
            Entry {
                id: 7,
                parent_id: 2,
                name: "f".to_owned(),
                kind: EntryKind::File { size: 29116 },
            },
            Entry {
                id: 8,
                parent_id: 2,
                name: "g".to_owned(),
                kind: EntryKind::File { size: 2557 },
            },
            Entry {
                id: 9,
                parent_id: 2,
                name: "h.lst".to_owned(),
                kind: EntryKind::File { size: 62596 },
            },
            Entry {
                id: 10,
                parent_id: 6,
                name: "i".to_owned(),
                kind: EntryKind::File { size: 584 },
            },
            Entry {
                id: 11,
                parent_id: 5,
                name: "j".to_owned(),
                kind: EntryKind::File { size: 4060174 },
            },
            Entry {
                id: 12,
                parent_id: 5,
                name: "d.log".to_owned(),
                kind: EntryKind::File { size: 8033020 },
            },
            Entry {
                id: 13,
                parent_id: 5,
                name: "d.ext".to_owned(),
                kind: EntryKind::File { size: 5626152 },
            },
            Entry {
                id: 14,
                parent_id: 5,
                name: "k".to_owned(),
                kind: EntryKind::File { size: 7214296 },
            },
        ]
    );
}

#[test]
fn empty_transcript_gives_only_root() {
    let entries = parse_aoc("").unwrap();
    assert_eq!(
        &entries,
        &[Entry {
            id: 1,
            parent_id: 1,
            name: "".to_owned(),
            kind: EntryKind::Directory { children: vec![] },
        }]
    );
}

#[test]
fn bare_dollar_is_missing_token() {
    assert_eq!(parse_aoc("$"), Err(ParseError::MissingToken));
}

#[test]
fn cd_without_target_is_missing_token() {
    assert_eq!(parse_aoc("$ cd"), Err(ParseError::MissingToken));
}

#[test]
fn unknown_command_is_rejected() {
    assert_eq!(parse_aoc("$ mount x"), Err(ParseError::UnknownCommand));
}

#[test]
fn cd_into_absent_name_is_rejected() {
    assert_eq!(parse_aoc("$ cd /\n$ cd nope"), Err(ParseError::NoSuchChild));
}

#[test]
fn listing_under_a_file_cursor_is_rejected() {
    assert_eq!(
        parse_aoc("$ cd /\n$ ls\n5 f\n$ cd f\n$ ls\n3 g"),
        Err(ParseError::NotADirectory)
    );
}

#[test]
fn cd_out_of_a_file_cursor_is_rejected() {
    assert_eq!(
        parse_aoc("$ cd /\n$ ls\n5 f\n$ cd f\n$ cd x"),
        Err(ParseError::NotADirectory)
    );
}

#[test]
fn non_numeric_size_is_rejected() {
    assert_eq!(parse_aoc("$ cd /\n$ ls\nxyz q"), Err(ParseError::BadSize));
}

#[test]
fn oversized_size_is_rejected() {
    assert_eq!(
        parse_aoc("$ cd /\n$ ls\n18446744073709551616 q"),
        Err(ParseError::BadSize)
    );
}

#[test]
fn largest_size_is_accepted() {
    let entries = parse_aoc("$ cd /\n$ ls\n18446744073709551615 q").unwrap();
    assert_eq!(
        entries[1],
        Entry {
            id: 2,
            parent_id: 1,
            name: "q".to_owned(),
            kind: EntryKind::File {
                size: 18446744073709551615
            },
        }
    );
}

#[test]
fn stray_line_outside_listing_is_rejected() {
    assert_eq!(parse_aoc("hello"), Err(ParseError::StrayLine));
    assert_eq!(parse_aoc("$ cd /\nfoo"), Err(ParseError::StrayLine));
}

#[test]
fn file_line_without_name_is_missing_token() {
    assert_eq!(parse_aoc("$ cd /\n$ ls\n1234"), Err(ParseError::MissingToken));
}

#[test]
fn trailing_newline_is_accepted() {
    let entries = parse_aoc("$ cd /\n$ ls\n1234 a.txt\n").unwrap();
    assert_eq!(entries.len(), 2);
    assert_eq!(entries[1].id, 2);
}

#[test]
fn dotdot_navigates_back_to_parent() {
    let input = "$ cd /\n$ ls\ndir a\n$ cd a\n$ ls\ndir b\n$ cd b\n$ cd ..\n$ cd ..\n$ ls\n7 t";
    let entries = parse_aoc(input).unwrap();
    // t was added after navigating back to the root
    assert_eq!(entries[3].name, "t".to_owned());
    assert_eq!(entries[3].parent_id, 1);
    assert_eq!(entries[3].kind, EntryKind::File { size: 7 });
}
