use sanitize_filenames::{
    parse_args, rename_path, run, run_with_args, sanitize_directory_tree, sanitized_filename,
    Config, Reply, Request, Runner, SanitizeMode, Startup,
};
use std::collections::BTreeMap;
use std::path::Path;

#[derive(Debug, Clone, Copy, PartialEq, Eq)]
enum Kind {
    File,
    Dir,
    LinkToDir,
    DanglingLink,
}

/// A file system in memory: every path that exists, with its kind.
#[derive(Debug, Clone, PartialEq, Eq)]
struct Disk {
    nodes: BTreeMap<String, Kind>,
    printed: Vec<String>,
    renames: Vec<(String, String)>,
}

impl Disk {
    fn new() -> Disk {
        Disk { nodes: BTreeMap::new(), printed: Vec::new(), renames: Vec::new() }
    }

    fn add(&mut self, path: &str, kind: Kind) {
        let mut prefix = String::new();
        let parts: Vec<&str> = path.split('/').collect();
        for part in &parts[..parts.len() - 1] {
            if !prefix.is_empty() {
                prefix.push('/');
            }
            prefix.push_str(part);
            self.nodes.entry(prefix.clone()).or_insert(Kind::Dir);
        }
        self.nodes.insert(path.to_string(), kind);
    }

    fn dir(&mut self, path: &str) {
        self.add(path, Kind::Dir);
    }

    fn file(&mut self, path: &str) {
        self.add(path, Kind::File);
    }

    fn has(&self, path: &str) -> bool {
        matches!(self.nodes.get(path), Some(Kind::File | Kind::Dir | Kind::LinkToDir))
    }

    fn is_dir(&self, path: &str) -> bool {
        matches!(self.nodes.get(path), Some(Kind::Dir | Kind::LinkToDir))
    }

    fn is_file(&self, path: &str) -> bool {
        matches!(self.nodes.get(path), Some(Kind::File))
    }

    fn is_real_dir(&self, path: &str) -> bool {
        matches!(self.nodes.get(path), Some(Kind::Dir))
    }

    fn list(&self, path: &str) -> Vec<String> {
        let prefix = format!("{path}/");
        self.nodes
            .keys()
            .filter(|p| p.starts_with(&prefix) && !p[prefix.len()..].contains('/'))
            .cloned()
            .collect()
    }

    fn rename(&mut self, old: &str, new: &str) {
        assert!(self.nodes.contains_key(old), "rename of a missing path {old:?}");
        assert!(!self.nodes.contains_key(new), "rename onto an existing path {new:?}");
        let prefix = format!("{old}/");
        let moved: Vec<String> =
            self.nodes.keys().filter(|p| *p == old || p.starts_with(&prefix)).cloned().collect();
        for path in moved {
            let kind = self.nodes.remove(&path).unwrap();
            self.nodes.insert(format!("{new}{}", &path[old.len()..]), kind);
        }
        self.renames.push((old.to_string(), new.to_string()));
    }

    /// Carries out the requests of `runner` until it is finished.
    fn drive(&mut self, mut runner: Runner) -> Runner {
        let mut steps = 0;
        while !runner.is_finished() {
            let reply = match runner.request().clone() {
                Request::Exists(path) => Reply::Flag(self.has(&path)),
                Request::IsRealDir(path) => Reply::Flag(self.is_real_dir(&path)),
                Request::IsDir(path) => Reply::Flag(self.is_dir(&path)),
                Request::List(path) => Reply::Entries(self.list(&path)),
                Request::Probe { old, new } => Reply::Probed {
                    same: Path::new(&old) == Path::new(&new),
                    old_exists: self.has(&old),
                    new_exists: self.has(&new),
                },
                Request::Report { line, .. } => {
                    self.printed.push(line);
                    Reply::Done
                }
                Request::Rename { old, new, line } => {
                    self.printed.push(line);
                    self.rename(&old, &new);
                    Reply::Done
                }
                Request::Finished => unreachable!(),
            };
            runner = runner.step(reply);
            steps += 1;
            assert!(steps < 10_000, "the run does not end");
        }
        runner
    }

    fn walk(&mut self, path: &str, dry_run: bool, replacement: char, mode: SanitizeMode) -> String {
        let runner = self.drive(sanitize_directory_tree(path, dry_run, replacement, mode));
        runner.outcome().expect("a walk has an outcome")
    }
}

fn config(targets: &[&str], recursive: bool, dry_run: bool) -> Config {
    Config {
        recursive,
        dry_run,
        replacement: '_',
        targets: targets.iter().map(|t| t.to_string()).collect(),
        full_sanitize: false,
    }
}

#[test]
fn recursive_directory() {
    let mut disk = Disk::new();
    disk.dir("tmp/dir one/sub dir");
    disk.file("tmp/dir one/sub dir/file name.txt");

    let sanitized_root = disk.walk("tmp/dir one", false, '_', SanitizeMode::Legacy);

    assert_eq!(sanitized_root, "tmp/dir_one");
    assert!(disk.is_dir("tmp/dir_one/sub_dir"));
    assert!(disk.is_file("tmp/dir_one/sub_dir/file_name.txt"));
}

#[test]
fn recursive_custom_replacement() {
    let mut disk = Disk::new();
    disk.dir("tmp/dir one/sub dir");
    disk.file("tmp/dir one/sub dir/file name.txt");

    let sanitized_root = disk.walk("tmp/dir one", false, '-', SanitizeMode::Legacy);

    assert_eq!(sanitized_root, "tmp/dir-one");
    assert!(disk.is_dir("tmp/dir-one/sub-dir"));
    assert!(disk.is_file("tmp/dir-one/sub-dir/file-name.txt"));
}

#[test]
fn recursive_directory_with_nested_content() {
    let mut disk = Disk::new();
    let dirs = [
        "tmp/Root Dir",
        "tmp/Root Dir/Child One",
        "tmp/Root Dir/Second & Child",
        "tmp/Root Dir/Child One/Grand Child(1)",
        "tmp/Root Dir/Second & Child/Grand (Final)",
    ];
    for dir in dirs {
        disk.dir(dir);
    }
    let files = [
        "tmp/Root Dir/Root File?.txt",
        "tmp/Root Dir/Child One/Clip (A).mov",
        "tmp/Root Dir/Child One/Clip (B).mov",
        "tmp/Root Dir/Child One/Grand Child(1)/Take #1.wav",
        "tmp/Root Dir/Second & Child/Audio (Draft).wav",
        "tmp/Root Dir/Second & Child/Grand (Final)/Mix #2?.wav",
    ];
    for file in files {
        disk.file(file);
    }

    let sanitized_root = disk.walk("tmp/Root Dir", false, '_', SanitizeMode::Legacy);

    assert_eq!(sanitized_root, "tmp/Root_Dir");
    for dir in [
        "tmp/Root_Dir/Child_One",
        "tmp/Root_Dir/Second_Child",
        "tmp/Root_Dir/Child_One/Grand_Child_1",
        "tmp/Root_Dir/Second_Child/Grand_Final",
    ] {
        assert!(disk.is_dir(dir), "expected directory {:?} to exist", dir);
    }
    for file in [
        "tmp/Root_Dir/Root_File.txt",
        "tmp/Root_Dir/Child_One/Clip_A.mov",
        "tmp/Root_Dir/Child_One/Clip_B.mov",
        "tmp/Root_Dir/Child_One/Grand_Child_1/Take_1.wav",
        "tmp/Root_Dir/Second_Child/Audio_Draft.wav",
        "tmp/Root_Dir/Second_Child/Grand_Final/Mix_2.wav",
    ] {
        assert!(disk.is_file(file), "expected file {:?} to exist", file);
    }
    for old in dirs.iter().chain(files.iter()) {
        assert!(!disk.has(old), "expected the old path {:?} to be gone", old);
    }
    assert_eq!(disk.nodes.len(), 1 + dirs.len() + files.len());
}

#[test]
fn children_are_renamed_before_their_directory() {
    let mut disk = Disk::new();
    disk.file("a b/c d/e f.txt");
    disk.file("a b/g h.txt");

    disk.walk("a b", false, '_', SanitizeMode::Legacy);

    assert_eq!(
        disk.renames,
        vec![
            ("a b/c d/e f.txt".to_string(), "a b/c d/e_f.txt".to_string()),
            ("a b/c d".to_string(), "a b/c_d".to_string()),
            ("a b/g h.txt".to_string(), "a b/g_h.txt".to_string()),
            ("a b".to_string(), "a_b".to_string()),
        ]
    );
    assert_eq!(
        disk.printed,
        vec![
            "Changing 'a b/c d/e f.txt' to 'a b/c d/e_f.txt'",
            "Changing 'a b/c d' to 'a b/c_d'",
            "Changing 'a b/g h.txt' to 'a b/g_h.txt'",
            "Changing 'a b' to 'a_b'",
        ]
    );
}

#[test]
fn a_directory_with_a_dot_keeps_no_extension() {
    let mut disk = Disk::new();
    disk.file("archive.v2/notes.v2");

    let root = disk.walk("archive.v2", false, '_', SanitizeMode::Legacy);

    assert_eq!(root, "archive_v2");
    assert!(disk.is_file("archive_v2/notes.v2"));
}

#[test]
fn sanitize_directory_tree_handles_nonexistent_root() {
    let mut disk = Disk::new();
    disk.dir("tmp");
    let before = disk.nodes.clone();

    let result = disk.walk("tmp/does_not_exist", false, '_', SanitizeMode::Legacy);

    assert_eq!(result, "tmp/does_not_exist");
    assert!(!disk.has("tmp/does_not_exist"));
    assert_eq!(disk.nodes, before);
    assert_eq!(disk.printed, vec!["Old file name 'tmp/does_not_exist' does not exist.  Skipping"]);
}

#[test]
fn sanitize_directory_tree_sanitizes_single_file() {
    let mut disk = Disk::new();
    disk.file("tmp/file name.txt");

    let result = disk.walk("tmp/file name.txt", false, '_', SanitizeMode::Legacy);

    assert_eq!(result, "tmp/file_name.txt");
    assert!(!disk.has("tmp/file name.txt"));
    assert!(disk.has("tmp/file_name.txt"));
}

#[test]
fn links_are_renamed_and_never_entered() {
    let mut disk = Disk::new();
    disk.dir("top dir");
    disk.add("top dir/link to.dir", Kind::LinkToDir);
    disk.add("top dir/dangling link", Kind::DanglingLink);

    disk.walk("top dir", false, '_', SanitizeMode::Legacy);

    assert_eq!(disk.nodes.get("top_dir/link_to_dir"), Some(&Kind::LinkToDir));
    assert_eq!(disk.nodes.get("top_dir/dangling link"), Some(&Kind::DanglingLink));
    assert!(disk
        .printed
        .contains(&"Old file name 'top dir/dangling link' does not exist.  Skipping".to_string()));

    let mut disk = Disk::new();
    disk.add("link to dir", Kind::LinkToDir);
    disk.file("link to dir/in side");
    let root = disk.walk("link to dir", false, '_', SanitizeMode::Legacy);
    assert_eq!(root, "link_to_dir");
    assert!(disk.is_file("link_to_dir/in side"));
}

#[test]
fn dry_run_does_not_rename() {
    let mut disk = Disk::new();
    disk.file("tmp/file name.txt");

    let desired = sanitized_filename("tmp/file name.txt", false, '_', SanitizeMode::Legacy);
    let result = rename_path(
        "tmp/file name.txt",
        &desired,
        false,
        disk.has("tmp/file name.txt"),
        disk.has(&desired),
        true,
    );

    assert_eq!(result.path, desired);
    assert_ne!(result.action, sanitize_filenames::RenameAction::Change);
    assert!(disk.has("tmp/file name.txt"));
    assert!(!disk.has(&desired));
}

#[test]
fn recursive_dry_run_does_not_rename() {
    let mut disk = Disk::new();
    disk.file("tmp/dir one/sub dir/file name.txt");
    let before = disk.nodes.clone();

    let sanitized_root = disk.walk("tmp/dir one", true, '_', SanitizeMode::Legacy);

    assert_eq!(sanitized_root, "tmp/dir_one");
    assert!(disk.has("tmp/dir one"));
    assert!(!disk.has("tmp/dir_one"));
    assert_eq!(disk.nodes, before);
    assert!(disk.renames.is_empty());
    assert_eq!(
        disk.printed,
        vec![
            "Would change 'tmp/dir one/sub dir/file name.txt' to 'tmp/dir one/sub dir/file_name.txt'",
            "Would change 'tmp/dir one/sub dir' to 'tmp/dir one/sub_dir'",
            "Would change 'tmp/dir one' to 'tmp/dir_one'",
        ]
    );
}

#[test]
fn a_collision_leaves_the_source_alone() {
    let mut disk = Disk::new();
    disk.file("tmp/a b.txt");
    disk.file("tmp/a_b.txt");
    let before = disk.nodes.clone();

    let root = disk.walk("tmp", false, '_', SanitizeMode::Legacy);

    assert_eq!(root, "tmp");
    assert_eq!(disk.nodes, before);
    assert!(disk.renames.is_empty());
    assert_eq!(
        disk.printed,
        vec![
            "New file name 'tmp/a_b.txt' already exists!  Skipping",
            "Old name and new name are the same for 'tmp/a_b.txt'.  Not changing",
            "Old name and new name are the same for 'tmp'.  Not changing",
        ]
    );

    let outcome = disk.walk("tmp/a b.txt", false, '_', SanitizeMode::Legacy);
    assert_eq!(outcome, "tmp/a b.txt");
    assert_eq!(disk.nodes, before);
}

#[test]
fn run_non_recursive_renames_target_files() {
    let mut disk = Disk::new();
    disk.file("tmp/file name.txt");

    disk.drive(run(config(&["tmp/file name.txt"], false, false)));

    assert!(!disk.has("tmp/file name.txt"));
    assert!(disk.has("tmp/file_name.txt"));
}

#[test]
fn run_non_recursive_does_not_recurse_into_directories() {
    let mut disk = Disk::new();
    disk.file("tmp/dir one/sub dir/file name.txt");

    disk.drive(run(config(&["tmp/dir one"], false, false)));

    assert!(!disk.has("tmp/dir one"));
    assert!(disk.has("tmp/dir_one"));
    assert!(
        disk.is_dir("tmp/dir_one/sub dir"),
        "expected non-recursive run to leave subdirectory name unchanged"
    );
    assert!(
        disk.is_file("tmp/dir_one/sub dir/file name.txt"),
        "expected non-recursive run to leave file name unchanged"
    );
}

#[test]
fn run_recursive_respects_dry_run() {
    let mut disk = Disk::new();
    disk.file("tmp/dir one/sub dir/file name.txt");

    disk.drive(run(config(&["tmp/dir one"], true, true)));

    assert!(disk.has("tmp/dir one"));
    assert!(disk.has("tmp/dir one/sub dir"));
    assert!(disk.has("tmp/dir one/sub dir/file name.txt"));
    assert!(!disk.has("tmp/dir_one"));
}

#[test]
fn run_takes_the_targets_in_order() {
    let mut disk = Disk::new();
    disk.file("b c");
    disk.file("a b/x y");
    disk.file("z.z");

    let mut cfg = config(&["b c", "missing one", "a b", "z.z"], true, false);
    cfg.full_sanitize = true;
    cfg.replacement = '-';
    let runner = disk.drive(run(cfg));

    assert_eq!(
        disk.printed,
        vec![
            "Changing 'b c' to 'b-c'",
            "Old file name 'missing one' does not exist.  Skipping",
            "Changing 'a b/x y' to 'a b/x-y'",
            "Changing 'a b' to 'a-b'",
            "Old name and new name are the same for 'z.z'.  Not changing",
        ]
    );
    assert_eq!(runner.outcome(), Some("z.z".to_string()));
    assert!(disk.is_file("a-b/x-y"));
}

#[test]
fn run_without_targets_is_finished_at_once() {
    let runner = run(config(&[], true, false));
    assert!(runner.is_finished());
    assert_eq!(runner.outcome(), None);
    let runner = runner.step(Reply::Done);
    assert!(runner.is_finished());
}

#[test]
fn the_first_request_depends_on_recursion() {
    let runner = run(config(&["a b"], true, false));
    assert!(matches!(runner.request(), Request::Exists(path) if path == "a b"));
    let runner = run(config(&["a b"], false, false));
    assert!(matches!(runner.request(), Request::IsDir(path) if path == "a b"));
    let runner = sanitize_directory_tree("a b", false, '_', SanitizeMode::Full);
    assert!(matches!(runner.request(), Request::Exists(path) if path == "a b"));
}

#[test]
fn a_reply_that_does_not_fit_is_ignored() {
    let runner = sanitize_directory_tree("a b", false, '_', SanitizeMode::Legacy);
    let runner = runner.step(Reply::Done);
    assert!(matches!(runner.request(), Request::Exists(path) if path == "a b"));
    let runner = runner.step(Reply::Entries(vec!["x".to_string()]));
    assert!(matches!(runner.request(), Request::Exists(path) if path == "a b"));
    let runner = runner.step(Reply::Flag(true));
    assert!(matches!(runner.request(), Request::IsRealDir(path) if path == "a b"));
    let runner = runner.step(Reply::Probed { same: false, old_exists: true, new_exists: false });
    assert!(matches!(runner.request(), Request::IsRealDir(path) if path == "a b"));
    let runner = runner.step(Reply::Flag(false));
    assert!(matches!(runner.request(), Request::IsDir(path) if path == "a b"));
    let runner = runner.step(Reply::Flag(false));
    assert!(
        matches!(runner.request(), Request::Probe { old, new } if old == "a b" && new == "a_b")
    );
    let runner = runner.step(Reply::Flag(true));
    assert!(matches!(runner.request(), Request::Probe { .. }));
    let runner = runner.step(Reply::Probed { same: false, old_exists: true, new_exists: false });
    assert!(matches!(
        runner.request(),
        Request::Rename { old, new, line }
            if old == "a b" && new == "a_b" && line == "Changing 'a b' to 'a_b'"
    ));
    let runner = runner.step(Reply::Flag(true));
    assert!(matches!(runner.request(), Request::Rename { .. }));
    assert_eq!(runner.outcome(), None);
    let runner = runner.step(Reply::Done);
    assert!(runner.is_finished());
    assert_eq!(runner.outcome(), Some("a_b".to_string()));
}

#[test]
fn option_terminator_handles_dash_prefixed_filename() {
    let mut disk = Disk::new();
    disk.file("tmp/-file name.txt");

    let file_str = "tmp/-file name.txt".to_string();
    let args = vec!["--dry-run".to_string(), "--".to_string(), file_str.clone()];
    let cfg = parse_args(&args).expect("parse_args failed");

    assert!(cfg.dry_run);
    assert_eq!(cfg.replacement, '_');
    assert!(!cfg.full_sanitize);
    assert_eq!(cfg.targets, vec![file_str.clone()]);

    let desired = sanitized_filename(&file_str, false, cfg.replacement, SanitizeMode::Legacy);
    disk.drive(run(cfg));

    assert_eq!(desired, "tmp/-file_name.txt");
    assert!(disk.has(&file_str));
    assert!(!disk.has(&desired));
}

#[test]
fn run_with_args_successfully_sanitizes_file() {
    let mut disk = Disk::new();
    disk.file("tmp/file name.txt");
    let args = vec!["tmp/file name.txt".to_string()];

    match run_with_args(&args) {
        Startup::Run(runner) => {
            disk.drive(runner);
        }
        Startup::Exit { .. } => panic!("expected a run"),
    }

    assert!(!disk.has("tmp/file name.txt"));
    assert!(disk.has("tmp/file_name.txt"));
}

/// The sanitized place of `path`, a path below `root`, once everything from
/// `root` down to it has been renamed.
fn sanitized_place(disk: &Disk, root: &str, new_root: &str, path: &str) -> String {
    let mut place = new_root.to_string();
    let mut old = root.to_string();
    for part in path[root.len() + 1..].split('/') {
        old = format!("{old}/{part}");
        let is_dir = old != path;
        place = sanitized_filename(&format!("{place}/{part}"), is_dir, '_', SanitizeMode::Legacy);
    }
    assert!(!disk.has(path), "expected the old path {:?} to be gone", path);
    place
}

#[test]
fn recursively_sanitizes_diverse_characters() {
    let mut disk = Disk::new();
    let root = "tmp/Root Dir (Audio) #1";
    let child_one = format!("{root}/[Child Project] && Mixes?");
    let child_two = format!("{root}/Second-Child (Drafts) #2");
    let grand_one = format!("{child_one}/Grand ?Child* [v1]");
    let grand_two = format!("{child_two}/Grand Child×Final (Take #1)");
    for dir in [root, &child_one, &child_two, &grand_one, &grand_two] {
        disk.dir(dir);
    }
    let files = [
        format!("{root}/ Root File?.txt"),
        format!("{root}/Another.File, With: Punctuation?.wav"),
        format!("{child_one}/Clip (A) \"first\".wav"),
        format!("{child_one}/Clip (B) #2?.wav"),
        format!("{grand_one}/Take 1 × 2.m4a.wav"),
        format!("{grand_one}/Interview Q&A (raw).mp3"),
        format!("{child_two}/Audio (Draft); version 1?.wav"),
        format!("{child_two}/Audio (Final)*mix&.wav"),
        format!("{grand_two}/Mix #2 && final?.wav"),
        format!("{grand_two}/Weird \\\\ slash.wav"),
    ];
    for path in &files {
        disk.file(path);
    }

    let sanitized_root = disk.walk(root, false, '_', SanitizeMode::Legacy);

    let expected_root = sanitized_filename(root, true, '_', SanitizeMode::Legacy);
    assert_eq!(sanitized_root, expected_root);
    assert_eq!(expected_root, "tmp/Root_Dir_Audio_1");
    assert!(disk.is_dir(&expected_root));
    assert!(disk.is_dir("tmp/Root_Dir_Audio_1/Child_Project_Mixes"));
    assert!(disk.is_dir("tmp/Root_Dir_Audio_1/Second-Child_Drafts_2"));
    assert!(disk.is_dir("tmp/Root_Dir_Audio_1/Child_Project_Mixes/Grand_Child_v1"));
    assert!(disk.is_dir("tmp/Root_Dir_Audio_1/Second-Child_Drafts_2/Grand_ChildxFinal_Take_1"));
    for dir in [root, &child_one, &child_two, &grand_one, &grand_two] {
        assert!(!disk.has(dir), "expected the old path {:?} to be gone", dir);
    }
    for path in &files {
        let expected = sanitized_place(&disk, root, &expected_root, path);
        assert!(disk.is_file(&expected), "expected sanitized file {:?} to exist", expected);
    }
    assert!(disk.is_file("tmp/Root_Dir_Audio_1/Root_File.txt"));
    assert!(disk.is_file("tmp/Root_Dir_Audio_1/Child_Project_Mixes/Grand_Child_v1/Take_1_x_2_m4a.wav"));
    assert!(disk.is_file("tmp/Root_Dir_Audio_1/Second-Child_Drafts_2/Grand_ChildxFinal_Take_1/Weird_slash.wav"));
}

#[test]
fn recursively_sanitizes_all_ascii_filename_characters() {
    let mut disk = Disk::new();
    let root = "tmp/Ascii Chars Root";
    disk.dir(root);
    let mut files = Vec::new();
    for byte in 1u8..=127 {
        let ch = byte as char;
        if ch == '/' {
            continue;
        }
        let path = format!("{root}/id{byte:03}_{ch}.txt");
        disk.file(&path);
        files.push(path);
    }

    let sanitized_root = disk.walk(root, false, '_', SanitizeMode::Legacy);

    let expected_root = sanitized_filename(root, true, '_', SanitizeMode::Legacy);
    assert_eq!(sanitized_root, expected_root);
    assert!(disk.is_dir(&expected_root));
    assert!(!disk.has(root), "expected the old root directory {:?} to be gone", root);
    for path in &files {
        let expected = sanitized_place(&disk, root, &expected_root, path);
        assert!(
            disk.is_file(&expected),
            "expected sanitized file {:?} to exist for {:?}",
            expected,
            path
        );
    }
    assert!(disk.is_file("tmp/Ascii_Chars_Root/id032.txt"));
    assert!(disk.is_file("tmp/Ascii_Chars_Root/id043_+.txt"));
    assert!(disk.is_file("tmp/Ascii_Chars_Root/id065_A.txt"));
    assert_eq!(disk.nodes.len(), 2 + files.len());
}

#[test]
fn a_dot_in_a_parent_is_no_extension() {
    let mut disk = Disk::new();
    disk.file("top.d/sub dir.e/file name");
    disk.file("top.d/sub dir.e/other name.txt");

    let root = disk.walk("top.d", false, '_', SanitizeMode::Legacy);

    assert_eq!(root, "top_d");
    assert!(disk.is_file("top_d/sub_dir_e/file_name"));
    assert!(disk.is_file("top_d/sub_dir_e/other_name.txt"));
    assert_eq!(disk.nodes.len(), 4);
}

#[test]
fn the_probe_says_whether_the_paths_are_the_same() {
    let runner = sanitize_directory_tree("same", false, '_', SanitizeMode::Legacy);
    let runner = runner.step(Reply::Flag(true)).step(Reply::Flag(false)).step(Reply::Flag(false));
    assert!(matches!(runner.request(), Request::Probe { old, new } if old == "same" && new == "same"));
    let unchanged =
        runner.clone().step(Reply::Probed { same: true, old_exists: true, new_exists: true });
    assert!(matches!(
        unchanged.request(),
        Request::Report { line, outcome }
            if outcome == "same" && line == "Old name and new name are the same for 'same'.  Not changing"
    ));
    let renamed = runner.step(Reply::Probed { same: false, old_exists: true, new_exists: false });
    assert!(matches!(renamed.request(), Request::Rename { old, new, .. } if old == "same" && new == "same"));
}
