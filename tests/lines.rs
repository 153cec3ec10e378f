use mks::cli::parse_args;
use mks::detect::{looks_like_tree, split_lines};
use mks::run::indent_style_of;
use mks::parse::{
    calculate_indent, extract_name_from_line, parse_tree_line, remove_comments,
    strip_emoji_prefix, IndentStyle, ParseError,
};
use mks::paths::{extract_base_name, extract_parent_path, is_absolute_path};
use mks::validate::{is_valid_filename, Platform};

fn names_of(line: &str) -> (Vec<String>, bool, usize) {
    match parse_tree_line(line, 7, Platform::Posix, IndentStyle::Connectors) {
        Ok(Some(p)) => {
            assert_eq!(p.node.line_number, 7);
            (p.node.names, p.node.is_dir, p.node.depth)
        }
        other => panic!("line {:?} gave {:?}", line, other),
    }
}

#[test]
fn depth_counts_vertical_glyphs() {
    assert_eq!(calculate_indent("│   │   ├── x"), 3);
    assert_eq!(calculate_indent("│ │ ├─ x"), 3);
    assert_eq!(calculate_indent("│\t\t│      └── x"), 3);
    assert_eq!(calculate_indent("├── x"), 1);
    assert_eq!(calculate_indent("│       └── c.txt"), 2);
    assert_eq!(calculate_indent("x │ y"), 0);
}

#[test]
fn depth_from_plain_indentation() {
    assert_eq!(calculate_indent("        x"), 2);
    assert_eq!(calculate_indent("   x"), 0);
    assert_eq!(calculate_indent("    x"), 1);
    assert_eq!(calculate_indent("x"), 0);
}

#[test]
fn comments_are_removed() {
    assert_eq!(remove_comments("src/main.rs  # entry point"), "src/main.rs");
    assert_eq!(remove_comments("file.txt ✅ done"), "file.txt");
    assert_eq!(remove_comments("a.txt → b"), "a.txt");
    assert_eq!(remove_comments("# only"), "");
    assert_eq!(remove_comments("plain  "), "plain");
}

#[test]
fn icons_are_stripped() {
    assert_eq!(strip_emoji_prefix("📁 📂 docs "), "docs");
    assert_eq!(strip_emoji_prefix("  ⚠ warn.txt"), "warn.txt");
    assert_eq!(strip_emoji_prefix("a📁"), "a📁");
}

#[test]
fn names_are_extracted() {
    assert_eq!(extract_name_from_line("│   ├── main.rs"), Some(("main.rs".to_string(), None)));
    assert_eq!(extract_name_from_line("└─ tail.rs"), Some(("tail.rs".to_string(), None)));
    assert_eq!(extract_name_from_line("📁 project/"), Some(("project/".to_string(), None)));
    assert_eq!(
        extract_name_from_line("C:\\Users\\me\\proj\\"),
        Some(("proj".to_string(), Some("C:\\Users\\me\\proj\\".to_string())))
    );
    assert_eq!(
        extract_name_from_line("/opt/tool"),
        Some(("tool".to_string(), Some("/opt/tool".to_string())))
    );
    assert_eq!(extract_name_from_line("│   │"), None);
    assert_eq!(extract_name_from_line("├── "), Some((String::new(), None)));
    assert_eq!(
        extract_name_from_line("/home/user/app/"),
        Some(("app".to_string(), Some("/home/user/app/".to_string())))
    );
}

#[test]
fn absolute_paths() {
    assert!(is_absolute_path("/usr"));
    assert!(is_absolute_path("  C:/x "));
    assert!(is_absolute_path("d:\\data"));
    assert!(is_absolute_path("\\\\server\\share"));
    assert!(!is_absolute_path("relative/path"));
    assert!(!is_absolute_path("1:/x"));
    assert!(!is_absolute_path("\\single"));
    assert!(!is_absolute_path(""));
}

#[test]
fn base_names_and_parents() {
    assert_eq!(extract_base_name("/home/user/app/"), Some("app".to_string()));
    assert_eq!(extract_base_name("C:\\a\\b"), Some("b".to_string()));
    assert_eq!(extract_base_name("/"), None);
    assert_eq!(extract_base_name("file"), Some("file".to_string()));
    assert_eq!(extract_parent_path("/home/user/app/"), Some("/home/user/".to_string()));
    assert_eq!(extract_parent_path("/app"), Some("/".to_string()));
    assert_eq!(extract_parent_path("app"), None);
    assert_eq!(extract_parent_path("//"), None);
}

#[test]
fn windows_reserved_names() {
    assert!(!is_valid_filename("CON.txt", Platform::Windows));
    assert!(!is_valid_filename("con", Platform::Windows));
    assert!(!is_valid_filename("Lpt9.log", Platform::Windows));
    assert!(!is_valid_filename("COM1", Platform::Windows));
    assert!(is_valid_filename("COM0", Platform::Windows));
    assert!(is_valid_filename("console", Platform::Windows));
    assert!(is_valid_filename("CON.txt", Platform::Posix));
}

#[test]
fn windows_forbidden_characters_and_endings() {
    assert!(!is_valid_filename("a:b", Platform::Windows));
    assert!(!is_valid_filename("a<b.txt", Platform::Windows));
    assert!(!is_valid_filename("what?", Platform::Windows));
    assert!(!is_valid_filename("name.", Platform::Windows));
    assert!(!is_valid_filename("abc ", Platform::Windows));
    assert!(is_valid_filename("abc ", Platform::Posix));
    assert!(is_valid_filename("a:b", Platform::Posix));
    assert!(is_valid_filename("name.", Platform::Posix));
    assert!(!is_valid_filename("a/b", Platform::Posix));
    assert!(is_valid_filename("a\\b", Platform::Posix));
}

#[test]
fn filename_length_and_control_characters() {
    assert!(is_valid_filename(&"x".repeat(255), Platform::Posix));
    assert!(!is_valid_filename(&"x".repeat(256), Platform::Posix));
    assert!(is_valid_filename(&format!("  {}  ", "x".repeat(255)), Platform::Posix));
    assert!(is_valid_filename(&"é".repeat(127), Platform::Posix));
    assert!(!is_valid_filename(&"é".repeat(128), Platform::Posix));
    assert!(!is_valid_filename("a\u{1}b", Platform::Posix));
    assert!(!is_valid_filename("a\u{0}b", Platform::Posix));
    assert!(!is_valid_filename("a\u{85}b", Platform::Posix));
    assert!(is_valid_filename("a\tb", Platform::Posix));
    assert!(!is_valid_filename("", Platform::Posix));
    assert!(!is_valid_filename("   ", Platform::Posix));
}

#[test]
fn validation_is_repeatable() {
    for name in ["ok.txt", "CON", "a<b", "", "x/y"] {
        for p in [Platform::Windows, Platform::Posix] {
            assert_eq!(is_valid_filename(name, p), is_valid_filename(name, p));
        }
    }
    let (names, _, _) = names_of("├── kept.txt & also.txt");
    for n in &names {
        assert!(is_valid_filename(n, Platform::Posix));
    }
}

#[test]
fn size_annotations_and_directories() {
    assert_eq!(names_of("├── big.bin (1.2 MB)"), (vec!["big.bin".to_string()], false, 1));
    assert_eq!(names_of("│   └── 📄 tiny (0.00 B)"), (vec!["tiny".to_string()], false, 2));
    assert_eq!(names_of("├── notes (draft)"), (vec!["notes (draft)".to_string()], false, 1));
    assert_eq!(names_of("📁 assets/"), (vec!["assets".to_string()], true, 0));
    assert_eq!(names_of("└── build\\"), (vec!["build".to_string()], true, 1));
    assert_eq!(names_of("C:\\proj\\app\\"), (vec!["app".to_string()], true, 0));
    assert_eq!(names_of("/opt/tool"), (vec!["tool".to_string()], false, 0));
}

#[test]
fn parse_errors() {
    assert_eq!(parse_tree_line("   ", 1, Platform::Posix, IndentStyle::Connectors).err(), Some(ParseError::EmptyLine));
    assert_eq!(parse_tree_line("# note", 1, Platform::Posix, IndentStyle::Connectors).err(), Some(ParseError::EmptyAfterComment));
    assert_eq!(parse_tree_line("│   │", 1, Platform::Posix, IndentStyle::Connectors).err(), Some(ParseError::NoNameFound));
    assert_eq!(parse_tree_line("├── a & b/c", 1, Platform::Posix, IndentStyle::Connectors).err(), Some(ParseError::InvalidFilename));
    assert!(matches!(parse_tree_line("├── & ", 1, Platform::Posix, IndentStyle::Connectors), Ok(None)));
}

#[test]
fn tree_detection() {
    assert!(looks_like_tree("a\n├── b"));
    assert!(!looks_like_tree("├── b"));
    assert!(looks_like_tree("root\n  a\n  b"));
    assert!(!looks_like_tree("root\n  a\nb"));
    assert!(!looks_like_tree("  root\n  \n  a"));
    assert!(!looks_like_tree(""));
}

#[test]
fn lines_are_split() {
    assert_eq!(split_lines("a\r\nb\n"), vec!["a", "b"]);
    assert_eq!(split_lines("a\n\nb"), vec!["a", "", "b"]);
    assert_eq!(split_lines("\n"), vec![""]);
    assert!(split_lines("").is_empty());
}

#[test]
fn command_line() {
    let args: Vec<String> = ["mks", "--debug", "tree.txt"].iter().map(|s| s.to_string()).collect();
    let o = parse_args(&args);
    assert!(o.debug && !o.help && !o.version);
    assert_eq!(o.file, Some(2));
    let args: Vec<String> = ["mks", "-h"].iter().map(|s| s.to_string()).collect();
    let o = parse_args(&args);
    assert!(o.help);
    assert_eq!(o.file, None);
    let args: Vec<String> = ["mks", "-V", "-x", "t.txt"].iter().map(|s| s.to_string()).collect();
    let o = parse_args(&args);
    assert!(o.version && !o.debug);
    assert_eq!(o.file, Some(3));
}

#[test]
fn one_depth_style_per_run() {
    let plain: Vec<String> = ["root/", "        child"].iter().map(|s| s.to_string()).collect();
    assert_eq!(indent_style_of(&plain), IndentStyle::Spaces);
    let drawn: Vec<String> = ["root/", "├── a", "        b"].iter().map(|s| s.to_string()).collect();
    assert_eq!(indent_style_of(&drawn), IndentStyle::Connectors);
    let spaced = parse_tree_line("        b", 1, Platform::Posix, IndentStyle::Spaces);
    assert_eq!(spaced.unwrap().unwrap().node.depth, 2);
    let counted = parse_tree_line("        b", 1, Platform::Posix, IndentStyle::Connectors);
    assert_eq!(counted.unwrap().unwrap().node.depth, 0);
}
