use aoc22::day07::{
    add_size, least_to_free, parse_line, parse_output, sum_small, total_size_p1, total_size_p2,
    Entry, Path,
};

static INPUT: &str = "$ cd /
$ ls
dir a
14848514 b.txt
8504156 c.dat
dir d
$ cd a
$ ls
dir e
29116 f
2557 g
62596 h.lst
$ cd e
$ ls
584 i
$ cd ..
$ cd ..
$ cd d
$ ls
4060174 j
8033020 d.log
5626152 d.ext
7214296 k";

fn chars(s: &str) -> Vec<char> {
    s.chars().collect()
}

fn path(rooted: bool, names: &[&str]) -> Path {
    Path { rooted, names: names.iter().map(|n| chars(n)).collect() }
}

fn sizes(s: &str) -> Vec<usize> {
    let mut v: Vec<usize> = parse_output(s).unwrap().iter().map(|e| e.1).collect();
    v.sort();
    v
}

#[test]
fn test_total_size_p1() {
    let input = "$ cd /
$ ls
dir a
14848514 b.txt
8504156 c.dat
dir d
$ cd a
$ ls
dir e
29116 f
2557 g
62596 h.lst
$ cd e
$ ls
584 i
$ cd ..
$ cd ..
$ cd d
$ ls
4060174 j
8033020 d.log
5626152 d.ext
7214296 k";
    assert_eq!(total_size_p1(input), 95437)
}

#[test]
fn test_total_size_p2() {
    let input = "$ cd /
$ ls
dir a
14848514 b.txt
8504156 c.dat
dir d
$ cd a
$ ls
dir e
29116 f
2557 g
62596 h.lst
$ cd e
$ ls
584 i
$ cd ..
$ cd ..
$ cd d
$ ls
4060174 j
8033020 d.log
5626152 d.ext
7214296 k";
    assert_eq!(total_size_p2(input), 24933642)
}

#[test]
fn totals_of_the_example() {
    assert_eq!(sizes(INPUT), vec![584, 94853, 24933642, 48381165]);
    let table = parse_output(INPUT).unwrap();
    let root = table.iter().find(|e| e.0.rooted && e.0.names.is_empty()).unwrap();
    assert_eq!(root.1, 48381165);
    let e = table.iter().find(|e| e.0.names == vec![chars("a"), chars("e")]).unwrap();
    assert_eq!(e.1, 584);
    assert_eq!(sum_small(&table), Some(95437));
    assert_eq!(least_to_free(&table), Some(24933642));
}

#[test]
fn lines_of_the_output() {
    assert!(matches!(parse_line(&chars("$ cd abc")), Some(Entry::Cd(n)) if n == chars("abc")));
    assert!(matches!(parse_line(&chars("$ cd ..")), Some(Entry::Cd(n)) if n == chars("..")));
    assert!(matches!(parse_line(&chars("$ cd /")), Some(Entry::Cd(n)) if n == chars("/")));
    assert!(matches!(parse_line(&chars("$ cd a b")), Some(Entry::Cd(n)) if n == chars("b")));
    assert!(parse_line(&chars("$ cd a/b")).is_none());
    assert!(parse_line(&chars("$ cd .")).is_none());
    assert!(parse_line(&chars("$ cd ")).is_none());
    assert!(matches!(parse_line(&chars("$ ls")), Some(Entry::Skip)));
    assert!(matches!(parse_line(&chars("$ lsx")), Some(Entry::Skip)));
    assert!(matches!(parse_line(&chars("dir a")), Some(Entry::Skip)));
    assert!(matches!(parse_line(&chars("584 i")), Some(Entry::File(584))));
    assert!(matches!(parse_line(&chars("584 i j")), Some(Entry::File(584))));
    assert!(parse_line(&chars("584")).is_none());
    assert!(parse_line(&chars("x i")).is_none());
    assert!(parse_line(&chars("$ cd")).is_none());
    assert!(parse_line(&chars("")).is_none());
}

#[test]
fn paths_and_their_prefixes() {
    let mut p = path(false, &[]);
    p.change(&chars("a"));
    p.change(&chars("b"));
    assert_eq!(p.names, vec![chars("a"), chars("b")]);
    assert!(!p.rooted);
    assert!(path(false, &["a"]).is_prefix_of(&p, 1));
    assert!(!path(true, &["a"]).is_prefix_of(&p, 1));
    assert!(!path(false, &["b"]).is_prefix_of(&p, 1));
    assert!(!path(false, &["a"]).is_prefix_of(&p, 2));
    assert!(path(false, &[]).is_prefix_of(&p, 0));
    assert_eq!(p.prefix(1).names, vec![chars("a")]);
    p.change(&chars(".."));
    p.change(&chars(".."));
    p.change(&chars(".."));
    assert!(p.names.is_empty() && !p.rooted);
    p.change(&chars("/"));
    assert!(p.names.is_empty() && p.rooted);
    p.change(&chars(".."));
    assert!(p.names.is_empty() && p.rooted);
}

#[test]
fn sizes_count_for_every_directory_above() {
    // Without a change to the root the directories hang under one without a name.
    assert_eq!(sizes("$ cd a\n10 x\n$ cd b\n5 y\n$ cd ..\n1 z"), vec![5, 16, 16]);
    assert_eq!(sizes("7 x\n7 x"), vec![14]);
    assert_eq!(sizes("$ ls\ndir a"), Vec::<usize>::new());
    assert!(parse_output("").is_none());
    assert!(parse_output("$ cd /\n\n5 a").is_none());
    assert!(parse_output("18446744073709551615 a\n1 b").is_none());
    assert_eq!(sizes("18446744073709551615 a"), vec![usize::MAX]);
    let mut table: Vec<(Path, usize)> = Vec::new();
    let d = path(true, &["a", "b"]);
    assert!(add_size(&mut table, &d, 2, 5));
    assert!(add_size(&mut table, &d, 1, 5));
    assert!(add_size(&mut table, &d, 2, 7));
    assert!(!add_size(&mut table, &d, 2, usize::MAX));
    let got: Vec<(Vec<Vec<char>>, usize)> = table.into_iter().map(|e| (e.0.names, e.1)).collect();
    assert_eq!(got, vec![(vec![chars("a"), chars("b")], 12), (vec![chars("a")], 5)]);
}

#[test]
fn the_smallest_directory_that_frees_enough() {
    let table = vec![(path(true, &[]), 50000000), (path(true, &["a"]), 10000000), (path(true, &["b"]), 9999999)];
    assert_eq!(least_to_free(&table), Some(10000000));
    assert_eq!(sum_small(&table), Some(0));
    let full = vec![(path(true, &[]), 70000001)];
    assert_eq!(least_to_free(&full), None);
    assert_eq!(least_to_free(&Vec::new()), None);
    let small = vec![(path(true, &[]), 5)];
    assert_eq!(least_to_free(&small), Some(5));
    assert_eq!(sum_small(&small), Some(5));
    assert_eq!(sum_small(&Vec::new()), Some(0));
}
