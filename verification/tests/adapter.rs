use aocfs::adapter::{AoCFS, Attributes, DirEntry, ListError, NodeKind};
use aocfs::parser::ParseError;

fn sample() -> AoCFS {
    AoCFS::new("$ cd /\n$ ls\ndir foo\n1234 a.txt\n$ cd foo\n$ ls\n99 inner").unwrap()
}

#[test]
fn new_rejects_a_malformed_transcript() {
    let r = AoCFS::new("$ cd /\n$ cd nope");
    assert!(matches!(r, Err(ParseError::NoSuchChild)));
}

#[test]
fn getattr_serves_root_directory() {
    let fs = sample();
    assert_eq!(
        fs.getattr(1),
        Some(Attributes {
            ino: 1,
            kind: NodeKind::Directory,
            size: 0
        })
    );
}

#[test]
fn getattr_serves_file_size() {
    let fs = sample();
    assert_eq!(
        fs.getattr(3),
        Some(Attributes {
            ino: 3,
            kind: NodeKind::File,
            size: 1234
        })
    );
    assert_eq!(
        fs.getattr(4),
        Some(Attributes {
            ino: 4,
            kind: NodeKind::File,
            size: 99
        })
    );
}

#[test]
fn getattr_of_unassigned_id_is_none() {
    let fs = sample();
    assert_eq!(fs.getattr(0), None);
    assert_eq!(fs.getattr(5), None);
    assert_eq!(fs.getattr(u64::MAX), None);
}

#[test]
fn lookup_resolves_child_by_parent_and_name() {
    let fs = sample();
    assert_eq!(
        fs.lookup(1, "a.txt"),
        Some(Attributes {
            ino: 3,
            kind: NodeKind::File,
            size: 1234
        })
    );
    assert_eq!(
        fs.lookup(1, "foo"),
        Some(Attributes {
            ino: 2,
            kind: NodeKind::Directory,
            size: 0
        })
    );
    assert_eq!(
        fs.lookup(2, "inner"),
        Some(Attributes {
            ino: 4,
            kind: NodeKind::File,
            size: 99
        })
    );
}

#[test]
fn lookup_misses_wrong_parent_or_name() {
    let fs = sample();
    assert_eq!(fs.lookup(1, "inner"), None);
    assert_eq!(fs.lookup(2, "a.txt"), None);
    assert_eq!(fs.lookup(1, "A.TXT"), None);
    assert_eq!(fs.lookup(9, "a.txt"), None);
}

#[test]
fn readdir_lists_children_in_insertion_order() {
    let fs = sample();
    let rows = fs.readdir(1, 0).unwrap();
    assert_eq!(
        rows,
        vec![
            DirEntry {
                ino: 2,
                name: "foo".to_owned(),
                kind: NodeKind::Directory
            },
            DirEntry {
                ino: 3,
                name: "a.txt".to_owned(),
                kind: NodeKind::File
            },
        ]
    );
}

#[test]
fn readdir_of_subdirectory_starts_with_dotdot() {
    let fs = sample();
    let rows = fs.readdir(2, 0).unwrap();
    assert_eq!(
        rows,
        vec![
            DirEntry {
                ino: 1,
                name: "..".to_owned(),
                kind: NodeKind::Directory
            },
            DirEntry {
                ino: 4,
                name: "inner".to_owned(),
                kind: NodeKind::File
            },
        ]
    );
}

#[test]
fn readdir_twice_yields_identical_rows() {
    let fs = sample();
    assert_eq!(fs.readdir(1, 0).unwrap(), fs.readdir(1, 0).unwrap());
    assert_eq!(fs.readdir(2, 0).unwrap(), fs.readdir(2, 0).unwrap());
}

#[test]
fn readdir_offset_drops_exactly_the_first_row() {
    let fs = sample();
    let all = fs.readdir(1, 0).unwrap();
    let rest = fs.readdir(1, 1).unwrap();
    assert_eq!(rest.as_slice(), &all[1..]);
    let sub_all = fs.readdir(2, 0).unwrap();
    let sub_rest = fs.readdir(2, 1).unwrap();
    assert_eq!(sub_rest.as_slice(), &sub_all[1..]);
}

#[test]
fn readdir_of_unknown_id_is_not_found() {
    let fs = sample();
    assert_eq!(fs.readdir(9, 0), Err(ListError::NotFound));
}

#[test]
fn readdir_of_file_id_is_not_a_directory() {
    let fs = sample();
    assert_eq!(fs.readdir(3, 0), Err(ListError::NotADirectory));
    assert_eq!(fs.readdir(4, 7), Err(ListError::NotADirectory));
}

#[test]
fn readdir_past_the_end_is_empty() {
    let fs = sample();
    assert_eq!(fs.readdir(1, 2).unwrap(), vec![]);
    assert_eq!(fs.readdir(1, 100).unwrap(), vec![]);
}

#[test]
fn aoc_example_served() {
    let input = "$ cd /\n$ ls\ndir a\n14848514 b.txt\n8504156 c.dat\ndir d\n$ cd a\n$ ls\ndir e\n29116 f\n2557 g\n62596 h.lst\n$ cd e\n$ ls\n584 i\n$ cd ..\n$ cd ..\n$ cd d\n$ ls\n4060174 j\n8033020 d.log\n5626152 d.ext\n7214296 k";
    let fs = AoCFS::new(input).unwrap();
    assert_eq!(
        fs.getattr(14),
        Some(Attributes {
            ino: 14,
            kind: NodeKind::File,
            size: 7214296
        })
    );
    let rows = fs.readdir(5, 0).unwrap();
    let names: Vec<&str> = rows.iter().map(|r| r.name.as_str()).collect();
    assert_eq!(names, vec!["..", "j", "d.log", "d.ext", "k"]);
    let inos: Vec<u64> = rows.iter().map(|r| r.ino).collect();
    assert_eq!(inos, vec![1, 11, 12, 13, 14]);
}
