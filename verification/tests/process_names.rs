use netmonitor::process_names::{
    collapse_whitespace_chars, display_name_from_sources, display_stem_from_image, fallback_display_name, friendly_name_fallback,
    humanize_process_name, looks_like_path, stem_of_file_name, stem_or_image_name,
};

#[test]
fn humanize_splits_separators_and_camel_case() {
    assert_eq!(humanize_process_name("MyApp_helper"), "My App helper");
    assert_eq!(humanize_process_name("some-tool.exe"), "some tool exe");
    assert_eq!(humanize_process_name("steamwebhelper"), "steamwebhelper");
    assert_eq!(humanize_process_name("NVIDIAShare"), "NVIDIAShare");
    assert_eq!(humanize_process_name("x64Tool"), "x64 Tool");
}

#[test]
fn humanize_collapses_runs_of_separators() {
    assert_eq!(humanize_process_name("__a--b..c__"), "a b c");
    assert_eq!(humanize_process_name("a _ b"), "a b");
}

#[test]
fn humanize_keeps_a_name_with_no_word() {
    assert_eq!(humanize_process_name("___"), "___");
    assert_eq!(humanize_process_name(""), "");
    assert_eq!(humanize_process_name("  "), "  ");
}

#[test]
fn collapse_whitespace_single_spaces_words() {
    let v: Vec<char> = "  a \t b\n\nc  ".chars().collect();
    let r: String = collapse_whitespace_chars(&v).into_iter().collect();
    assert_eq!(r, "a b c");
    let empty: Vec<char> = Vec::new();
    assert!(collapse_whitespace_chars(&empty).is_empty());
}

#[test]
fn friendly_names_of_well_known_programs() {
    assert_eq!(friendly_name_fallback("msedge"), "Microsoft Edge");
    assert_eq!(friendly_name_fallback("Chrome"), "Google Chrome");
    assert_eq!(friendly_name_fallback(" CODE "), "Visual Studio Code");
    assert_eq!(friendly_name_fallback("WeChat"), "WeChat");
    assert_eq!(friendly_name_fallback("qq"), "QQ");
    assert_eq!(friendly_name_fallback("explorer"), "Windows Explorer");
    assert_eq!(friendly_name_fallback("powershell"), "Windows PowerShell");
    assert_eq!(friendly_name_fallback("pwsh"), "PowerShell");
    assert_eq!(friendly_name_fallback("cmd"), "Command Prompt");
    assert_eq!(friendly_name_fallback("Spotify"), "Spotify");
}

#[test]
fn friendly_name_falls_back_to_humanized() {
    assert_eq!(friendly_name_fallback("steam_service"), "steam service");
    assert_eq!(friendly_name_fallback("MsMpEng"), "Ms Mp Eng");
    assert_eq!(friendly_name_fallback("chrome_proxy"), "chrome proxy");
}

#[test]
fn path_detection() {
    assert!(looks_like_path("C:\\Windows\\explorer.exe"));
    assert!(looks_like_path("/usr/bin/firefox"));
    assert!(looks_like_path("D:"));
    assert!(!looks_like_path("explorer.exe"));
    assert!(!looks_like_path(""));
}

#[test]
fn stems_of_file_names() {
    assert_eq!(stem_of_file_name("chrome.exe"), "chrome");
    assert_eq!(stem_of_file_name("archive.tar.gz"), "archive.tar");
    assert_eq!(stem_of_file_name(".bashrc"), ".bashrc");
    assert_eq!(stem_of_file_name("noext"), "noext");
    assert_eq!(stem_of_file_name("trailing."), "trailing");
    assert_eq!(stem_of_file_name(".."), "..");
}

#[test]
fn stem_or_image_name_uses_the_image_without_a_file_name() {
    assert_eq!(stem_or_image_name("x/..", None), "x/..");
    assert_eq!(stem_or_image_name("/a/b.exe", Some("b.exe".to_string())), "b");
    assert_eq!(stem_or_image_name("/a/.", Some(".".to_string())), ".");
    assert_eq!(stem_or_image_name("x", Some(".x".to_string())), ".x");
}

#[test]
fn display_stem_of_images() {
    assert_eq!(display_stem_from_image("/usr/bin/firefox"), "firefox");
    assert_eq!(display_stem_from_image("Code.exe"), "Code");
    assert_eq!(display_stem_from_image("pid-42"), "pid-42");
    assert_eq!(display_stem_from_image(""), "");
}

#[test]
fn fallback_display_names() {
    assert_eq!(fallback_display_name("msedge.exe"), "Microsoft Edge");
    assert_eq!(fallback_display_name("/opt/tools/my_sync-agent.bin"), "my sync agent");
    assert_eq!(fallback_display_name("pid-77"), "pid 77");
}

#[test]
fn display_stem_matches_std_path_stems() {
    for image in ["a/b/c.txt", "/x/y", "relative.name.exe", "dir/", "dir/.hidden", "a.b/c"] {
        let expected = std::path::Path::new(image)
            .file_stem()
            .map(|s| s.to_string_lossy().to_string())
            .filter(|s| !s.is_empty())
            .unwrap_or_else(|| image.to_string());
        assert_eq!(display_stem_from_image(image), expected, "image {image}");
    }
}

#[test]
fn collapsing_twice_changes_nothing() {
    for text in ["  a  b ", "\u{3000}x\ty\u{a0}", "", "   ", "one"] {
        let v: Vec<char> = text.chars().collect();
        let once = collapse_whitespace_chars(&v);
        let twice = collapse_whitespace_chars(&once);
        assert_eq!(once, twice, "text {text:?}");
        let expected = text.split_whitespace().collect::<Vec<_>>().join(" ");
        assert_eq!(once.into_iter().collect::<String>(), expected);
    }
}

#[test]
fn humanized_names_are_single_spaced() {
    for name in ["MyApp_helper", "__x__", "a--b", "A B", "steam web\thelper", "RuntimeBroker", "x_\u{3000}_y"] {
        let h = humanize_process_name(name);
        assert!(!h.starts_with(char::is_whitespace) && !h.ends_with(char::is_whitespace), "{h:?}");
        assert!(!h.contains("  "), "{h:?}");
        assert!(h.chars().all(|c| c == ' ' || !c.is_whitespace()), "{h:?}");
    }
}

#[test]
fn bare_file_names_lose_their_extension() {
    assert_eq!(display_stem_from_image("chrome.exe"), "chrome");
    assert_eq!(fallback_display_name("chrome.exe"), "Google Chrome");
    assert_eq!(fallback_display_name("Code.exe"), "Visual Studio Code");
    assert_eq!(display_stem_from_image("."), ".");
    assert_eq!(display_stem_from_image(".."), "..");
}

#[test]
fn display_name_sources_in_order() {
    let some = |s: &str| Some(s.to_string());
    assert_eq!(display_name_from_sources(some("Photos"), some("a"), some("b"), "x.exe"), "Photos");
    assert_eq!(display_name_from_sources(None, some("Desc"), some("b"), "x.exe"), "Desc");
    assert_eq!(display_name_from_sources(None, None, some("Image desc"), "x.exe"), "Image desc");
    assert_eq!(display_name_from_sources(None, None, None, "msedge.exe"), "Microsoft Edge");
    assert_eq!(display_name_from_sources(None, None, None, "/opt/my_tool"), "my tool");
}

#[test]
fn slash_paths_end_in_their_last_component() {
    assert_eq!(display_stem_from_image("/usr/bin/chrome"), "chrome");
    assert_eq!(display_stem_from_image("a//b.txt"), "b");
    assert_eq!(display_stem_from_image("relative/dir/tool.bin"), "tool");
    assert_eq!(fallback_display_name("/usr/share/code/code"), "Visual Studio Code");
    assert_eq!(fallback_display_name("opt/my-agent.exe"), "my agent");
}
