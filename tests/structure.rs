use mks::builder::{plan_structure, PathStack, Target};
use mks::detect::split_lines;
use mks::parse::{parse_tree_line, IndentStyle, ParseError, TreeNode};
use mks::run::parse_lines;
use mks::validate::Platform;

fn lines(text: &[&str]) -> Vec<String> {
    text.iter().map(|s| s.to_string()).collect()
}

fn render(targets: &[Target]) -> Vec<String> {
    targets
        .iter()
        .map(|t| {
            let mut p = t.path.join("/");
            if t.is_dir {
                p.push('/');
            }
            p
        })
        .collect()
}

fn node(line: &str) -> TreeNode {
    node_in(line, IndentStyle::Connectors)
}

fn node_in(line: &str, style: IndentStyle) -> TreeNode {
    match parse_tree_line(line, 1, Platform::Posix, style) {
        Ok(Some(parsed)) => parsed.node,
        other => panic!("line {:?} gave {:?}", line, other.map(|o| o.map(|p| p.node))),
    }
}

#[test]
fn scenario_project_tree() {
    let input = lines(&[
        "project/",
        "├── src/",
        "│   ├── main.ext",
        "│   └── lib.ext",
        "└── README.md",
    ]);
    let report = parse_lines(&input, Platform::Posix);
    assert!(report.failures.is_empty());
    assert_eq!(report.nodes.len(), 5);
    assert_eq!(report.base_directory(), None);
    assert_eq!(
        render(&plan_structure(&report.nodes)),
        vec![
            "project/",
            "project/src/",
            "project/src/main.ext",
            "project/src/lib.ext",
            "project/README.md",
        ]
    );
}

#[test]
fn scenario_absolute_first_line() {
    let input = lines(&["/home/user/app/", "├── main.rs", "└── docs/"]);
    let report = parse_lines(&input, Platform::Posix);
    assert_eq!(report.root_path.as_deref(), Some("/home/user/app/"));
    assert_eq!(report.base_directory().as_deref(), Some("/home/user/"));
    assert_eq!(report.nodes[0].names, vec!["app"]);
    assert!(report.nodes[0].is_dir);
    assert_eq!(render(&plan_structure(&report.nodes)), vec!["app/", "app/main.rs", "app/docs/"]);
}

#[test]
fn scenario_conjunction_at_root() {
    let input = lines(&["a.txt & b.txt", "    c.txt"]);
    let report = parse_lines(&input, Platform::Posix);
    assert_eq!(report.nodes[0].names, vec!["a.txt", "b.txt"]);
    assert!(!report.nodes[0].is_dir);
    let mut stack = PathStack::new();
    let step = stack.apply(&report.nodes[0]);
    assert_eq!(render(&step.targets), vec!["a.txt", "b.txt"]);
    assert!(stack.entries.is_empty());
    let step = stack.apply(&report.nodes[1]);
    assert!(step.beyond_stack);
    assert_eq!(render(&step.targets), vec!["c.txt"]);
}

#[test]
fn scenario_depth_beyond_stack() {
    let mut stack = PathStack::new();
    stack.apply(&node("root/"));
    let deep = node_in("            deep.txt", IndentStyle::Spaces);
    assert_eq!(deep.depth, 3);
    let step = stack.apply(&deep);
    assert!(step.beyond_stack);
    assert_eq!(render(&step.targets), vec!["root/deep.txt"]);
    assert_eq!(stack.entries, vec!["root"]);
}

#[test]
fn scenario_empty_input() {
    let report = parse_lines(&split_lines(""), Platform::Posix);
    assert!(!report.has_structure());
    assert!(report.failures.is_empty());
    let report = parse_lines(&split_lines("\n  \n"), Platform::Posix);
    assert!(!report.has_structure());
    assert_eq!(report.failures.len(), 2);
    assert_eq!(report.failures[0].error, ParseError::EmptyLine);
}

#[test]
fn illegal_character_is_skipped_and_counted() {
    let input = lines(&["a<b.txt", "ok.txt"]);
    let report = parse_lines(&input, Platform::Windows);
    assert_eq!(report.failures.len(), 1);
    assert_eq!(report.failures[0].line_number, 1);
    assert_eq!(report.failures[0].error, ParseError::InvalidFilename);
    assert_eq!(report.nodes.len(), 1);
    assert_eq!(report.nodes[0].names, vec!["ok.txt"]);
    assert_eq!(report.nodes[0].line_number, 2);
    let posix = parse_lines(&input, Platform::Posix);
    assert!(posix.failures.is_empty());
    assert_eq!(posix.nodes.len(), 2);
}

#[test]
fn conjunction_gives_three_siblings() {
    let mut stack = PathStack::new();
    stack.apply(&node("root/"));
    let files = node("├── a.txt & b.txt & c.txt");
    assert_eq!(files.names, vec!["a.txt", "b.txt", "c.txt"]);
    assert_eq!(files.depth, 1);
    let step = stack.apply(&files);
    assert_eq!(render(&step.targets), vec!["root/a.txt", "root/b.txt", "root/c.txt"]);
    assert_eq!(stack.entries, vec!["root"]);
    let dirs = node("├── a & b & c/");
    let step = stack.apply(&dirs);
    assert_eq!(render(&step.targets), vec!["root/a/", "root/b/", "root/c/"]);
    assert_eq!(stack.entries, vec!["root", "a"]);
    let step = stack.apply(&node("│   └── inner.txt"));
    assert_eq!(render(&step.targets), vec!["root/a/inner.txt"]);
}

#[test]
fn shallower_line_closes_ancestors() {
    let input = lines(&[
        "top/",
        "├── a/",
        "│   ├── b/",
        "│   │   └── deep.txt",
        "│   └── mid.txt",
        "└── last.txt",
        "other.txt",
    ]);
    let report = parse_lines(&input, Platform::Posix);
    assert_eq!(
        render(&plan_structure(&report.nodes)),
        vec!["top/", "top/a/", "top/a/b/", "top/a/b/deep.txt", "top/a/mid.txt", "top/last.txt", "other.txt"]
    );
}

#[test]
fn first_parsed_node_gives_root_path() {
    let input = lines(&["", "/srv/site/", "└── index.html"]);
    let report = parse_lines(&input, Platform::Posix);
    assert_eq!(report.failures.len(), 1);
    assert_eq!(report.base_directory().as_deref(), Some("/srv/"));
    let later = lines(&["site/", "/srv/other/"]);
    let report = parse_lines(&later, Platform::Posix);
    assert_eq!(report.root_path, None);
    assert_eq!(report.base_directory(), None);
}
