use sanitize_filenames::compose::attach_extension;
use sanitize_filenames::{extract_extension, sanitize_component, sanitized_filename, SanitizeMode};

#[test]
fn sanitized_basic_cases() {
    assert_eq!(sanitized_filename("×", false, '_', SanitizeMode::Legacy), "x");
    assert_eq!(sanitized_filename("Hello", false, '_', SanitizeMode::Legacy), "Hello");
    assert_eq!(sanitized_filename("hello.wav", false, '_', SanitizeMode::Legacy), "hello.wav");
    assert_eq!(
        sanitized_filename("Hello World", false, '_', SanitizeMode::Legacy),
        "Hello_World"
    );
    assert_eq!(
        sanitized_filename("Hello.World", false, '_', SanitizeMode::Legacy),
        "Hello.World"
    );
    assert_eq!(
        sanitized_filename("hello world.wav", false, '_', SanitizeMode::Legacy),
        "hello_world.wav"
    );
    assert_eq!(
        sanitized_filename("Hello.world.wav", false, '_', SanitizeMode::Legacy),
        "Hello_world.wav"
    );
    assert_eq!(
        sanitized_filename("hello? + world.wav", false, '_', SanitizeMode::Legacy),
        "hello_+_world.wav"
    );
    assert_eq!(
        sanitized_filename("Bart_banner_14_5_×_2_5_in.png", false, '_', SanitizeMode::Legacy),
        "Bart_banner_14_5_x_2_5_in.png"
    );
    assert_eq!(
        sanitized_filename("hello? &&*()#@+ world.wav", false, '_', SanitizeMode::Legacy),
        "hello_@+_world.wav"
    );
    assert_eq!(
        sanitized_filename("August Gold Q&A Audio.m4a.wav", false, '_', SanitizeMode::Legacy),
        "August_Gold_Q_A_Audio_m4a.wav"
    );
    assert_eq!(
        sanitized_filename("nested/dir/file name.txt", false, '_', SanitizeMode::Legacy),
        "nested/dir/file_name.txt"
    );
    assert_eq!(
        sanitized_filename("/absolute/path/Hello World.txt", false, '_', SanitizeMode::Legacy),
        "/absolute/path/Hello_World.txt"
    );
    assert_eq!(
        sanitized_filename("relative/./path/Hello World.txt", false, '_', SanitizeMode::Legacy),
        "relative/./path/Hello_World.txt"
    );
}

#[test]
fn sanitized_trims_edge_replacements() {
    assert_eq!(
        sanitized_filename(
            "🐾_The_Adventures_of_Marshal_Poppy_The_Great_Sarsaparilla_Heist.md",
            false,
            '_',
            SanitizeMode::Full
        ),
        "The_Adventures_of_Marshal_Poppy_The_Great_Sarsaparilla_Heist.md"
    );

    assert_eq!(sanitized_filename("  spaced  ", false, '_', SanitizeMode::Legacy), "spaced");

    assert_eq!(
        sanitized_filename(
            "_The_Adventures_of_Marshal_Poppy_The_Great_Sarsaparilla_Heist_.md",
            false,
            '_',
            SanitizeMode::Legacy
        ),
        "The_Adventures_of_Marshal_Poppy_The_Great_Sarsaparilla_Heist.md"
    );

    assert_eq!(
        sanitized_filename("nested/  spaced  .txt", false, '_', SanitizeMode::Legacy),
        "nested/spaced.txt"
    );
}

#[test]
fn custom_replacement() {
    assert_eq!(
        sanitized_filename("Hello World.txt", false, '-', SanitizeMode::Legacy),
        "Hello-World.txt"
    );
}

#[test]
fn full_sanitize_outputs_only_whitelisted_chars() {
    let input = "Hello World! @#[](){}=+,.×é";
    let output = sanitized_filename(input, false, '_', SanitizeMode::Full);
    let path = std::path::Path::new(&output);
    let fname = path.file_name().unwrap().to_string_lossy();
    let base = fname.split('.').next().unwrap();
    for ch in base.chars() {
        assert!(
            ch.is_ascii_alphanumeric() || ch == '_' || ch == '-',
            "found disallowed character {:?} in output {:?}",
            ch,
            output
        );
    }
}

#[test]
fn literal_scenarios() {
    assert_eq!(
        sanitized_filename("Hello World.txt", false, '_', SanitizeMode::Legacy),
        "Hello_World.txt"
    );
    assert_eq!(sanitized_filename("_Name_.md", false, '_', SanitizeMode::Legacy), "Name.md");
}

#[test]
fn a_directory_has_no_extension() {
    assert_eq!(
        sanitized_filename("archive.v2", true, '_', SanitizeMode::Legacy),
        "archive_v2"
    );
    assert_eq!(sanitized_filename("archive.v2", true, '_', SanitizeMode::Full), "archive_v2");
    assert_eq!(
        sanitized_filename("archive.v2", false, '_', SanitizeMode::Legacy),
        "archive.v2"
    );
    assert_eq!(sanitized_filename("some dir/v1.2", true, '-', SanitizeMode::Legacy), "some dir/v1-2");
}

#[test]
fn hidden_files_have_no_extension() {
    assert_eq!(sanitized_filename(".bashrc", false, '_', SanitizeMode::Legacy), "bashrc");
    assert_eq!(sanitized_filename(".my file.txt", false, '_', SanitizeMode::Legacy), "my_file_txt");
}

#[test]
fn the_parent_is_left_alone() {
    assert_eq!(
        sanitized_filename("my dir/sub dir/a b", false, '_', SanitizeMode::Legacy),
        "my dir/sub dir/a_b"
    );
    assert_eq!(sanitized_filename("./a b", false, '_', SanitizeMode::Legacy), "a_b");
    assert_eq!(sanitized_filename("/a b", false, '_', SanitizeMode::Legacy), "/a_b");
    assert_eq!(sanitized_filename("a b/", true, '_', SanitizeMode::Legacy), "a_b");
    assert_eq!(sanitized_filename("x/a b/", true, '_', SanitizeMode::Legacy), "x/a_b");
}

#[test]
fn the_extension_follows_a_dot_unless_the_base_is_empty() {
    assert_eq!(attach_extension("base".to_string(), "base", "txt"), "base.txt");
    assert_eq!(attach_extension("dir/base".to_string(), "base", "txt"), "dir/base.txt");
    assert_eq!(attach_extension("base".to_string(), "base", ""), "base");
    assert_eq!(attach_extension(String::new(), "", "txt"), "txt");
    assert_eq!(attach_extension("dir/".to_string(), "", "txt"), "dir/txt");
    assert_eq!(attach_extension(String::new(), "", ""), "");
    assert_eq!(sanitized_filename("dir/?.txt", false, '_', SanitizeMode::Legacy), "dir/txt");
    assert_eq!(sanitized_filename("?.txt", false, '_', SanitizeMode::Legacy), "txt");
    assert_eq!(sanitized_filename("", false, '_', SanitizeMode::Legacy), "");
}

#[test]
fn a_path_without_a_last_component() {
    assert_eq!(sanitized_filename("/", true, '_', SanitizeMode::Legacy), "");
    assert_eq!(sanitized_filename("..", true, '_', SanitizeMode::Legacy), "");
}

#[test]
fn the_extension_comes_through() {
    for (path, extension) in [
        ("my file.tar.gz", "gz"),
        ("a/b c/Hello World.TXT", "TXT"),
        ("??.wav", "wav"),
        ("x.y z", "y z"),
        ("name.", ""),
    ] {
        for mode in [SanitizeMode::Legacy, SanitizeMode::Full] {
            let out = sanitized_filename(path, false, '_', mode);
            assert_eq!(extract_extension(path, false), extension);
            if !extension.is_empty() {
                assert!(out == extension || out.ends_with(&format!(".{extension}")), "{out:?}");
                assert_eq!(out.rsplit('.').next(), Some(extension));
                if out.contains('.') && !out.starts_with('.') {
                    assert_eq!(extract_extension(&out, false), extension);
                }
            }
        }
    }
    assert_eq!(sanitized_filename("my file.tar.gz", false, '_', SanitizeMode::Legacy), "my_file_tar.gz");
    assert_eq!(sanitized_filename("??.wav", false, '_', SanitizeMode::Legacy), "wav");
    assert_eq!(sanitized_filename("x.y z", false, '_', SanitizeMode::Legacy), "x_y_z.y z");
}

#[test]
fn nothing_of_the_extension_stays_in_the_base() {
    for mode in [SanitizeMode::Legacy, SanitizeMode::Full] {
        for stem in ["stem", "my  file", " a ", "a.", "a.txt", "_x_"] {
            let name = format!("{stem}.txt");
            assert_eq!(
                sanitize_component(&name, '_', "txt", mode),
                sanitize_component(stem, '_', "", mode)
            );
        }
        assert_eq!(sanitize_component("?.txt", '_', "txt", mode), "");
        assert_eq!(sanitize_component(".txt", '_', "txt", mode), "");
    }
}

#[test]
fn the_extension_is_that_of_the_last_component() {
    for mode in [SanitizeMode::Legacy, SanitizeMode::Full] {
        assert_eq!(sanitized_filename("dir.d/file", false, '_', mode), "dir.d/file");
        assert_eq!(sanitized_filename("dir.d/my file", false, '_', mode), "dir.d/my_file");
        assert_eq!(sanitized_filename("dir.d/a b.txt", false, '_', mode), "dir.d/a_b.txt");
        assert_eq!(sanitized_filename("./Hello World.txt", false, '_', mode), "Hello_World.txt");
        assert_eq!(
            sanitized_filename(".config/Hello World.txt", false, '_', mode),
            ".config/Hello_World.txt"
        );
        assert_eq!(sanitized_filename("../a b.txt", false, '_', mode), "../a_b.txt");
        assert_eq!(sanitized_filename("dir/.my file.txt", false, '_', mode), "dir/my_file_txt");
        assert_eq!(sanitized_filename("dir.d/sub.e", true, '_', mode), "dir.d/sub_e");
    }
}

#[test]
fn a_sanitized_path_is_left_alone() {
    for mode in [SanitizeMode::Legacy, SanitizeMode::Full] {
        for path in [
            "dir.d/file",
            "dir.d/my file.txt",
            "./Hello World.txt",
            "a/b c/  x  y .tar.gz",
            "Hello World",
            "/abs/??weird??.wav",
        ] {
            let once = sanitized_filename(path, false, '_', mode);
            let twice = sanitized_filename(&once, false, '_', mode);
            assert_eq!(once, twice, "{path:?}");
        }
    }
}
