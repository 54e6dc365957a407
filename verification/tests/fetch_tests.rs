use sysfetch::color::ColorCode;
use sysfetch::color_iter::ColorCodeIter;
use sysfetch::info::{
    battery_percentage, device_model, gpu_find, gpu_find_accepts, gtk_icon_find, gtk_theme_find,
    uptime_field, uptime_time, user_list,
};
use sysfetch::packages::{
    cargo_bin_dir, home_dir, package_managers, packages, path_binaries, split_path, ManagerReport,
    PathEntry,
};
use sysfetch::style::{get_host, get_kernel, get_model, get_os, get_user, ModelSource};
use sysfetch::text::command_text;

fn decode_all(text: &str) -> Vec<(char, ColorCode)> {
    ColorCodeIter::new(text.chars().collect()).decode_all()
}

#[test]
fn plain_text_keeps_default_blue() {
    assert_eq!(decode_all("ab"), vec![('a', ColorCode::Blue), ('b', ColorCode::Blue)]);
}

#[test]
fn named_code_switches_colour() {
    assert_eq!(
        decode_all("${red}xy"),
        vec![('x', ColorCode::Red), ('y', ColorCode::Red)]
    );
}

#[test]
fn names_ignore_case_and_purple_is_magenta() {
    assert_eq!(decode_all("${PURPLE}k"), vec![('k', ColorCode::Magenta)]);
    assert_eq!(decode_all("${Bright Cyan}k"), vec![('k', ColorCode::BrightCyan)]);
}

#[test]
fn hex_codes_give_true_colours() {
    assert_eq!(
        decode_all("${#ff0000}z"),
        vec![('z', ColorCode::TrueColor { r: 255, g: 0, b: 0 })]
    );
    assert_eq!(
        decode_all("${#0F8}z"),
        vec![('z', ColorCode::TrueColor { r: 0, g: 255, b: 136 })]
    );
    assert_eq!(
        decode_all("${#+f+f+f}z"),
        vec![('z', ColorCode::TrueColor { r: 15, g: 15, b: 15 })]
    );
}

#[test]
fn unknown_code_keeps_colour() {
    assert_eq!(
        decode_all("${green}a${nonsense}b"),
        vec![('a', ColorCode::Green), ('b', ColorCode::Green)]
    );
}

#[test]
fn dollar_without_brace_is_literal() {
    assert_eq!(
        decode_all("$a$"),
        vec![('$', ColorCode::Blue), ('a', ColorCode::Blue)]
    );
}

#[test]
fn backslash_escapes_next_character() {
    assert_eq!(
        decode_all("\\$x\\"),
        vec![('$', ColorCode::Blue), ('x', ColorCode::Blue)]
    );
}

#[test]
fn code_at_end_yields_nothing_more() {
    let mut it = ColorCodeIter::new("a${red}".chars().collect());
    assert_eq!(it.next(), Some(('a', ColorCode::Blue)));
    assert!(it.next_is_defined());
    assert_eq!(it.next(), None);
    assert_eq!(it.next(), None);
}

#[test]
fn unclosed_code_is_not_defined() {
    let it = ColorCodeIter::new("${red".chars().collect());
    assert!(!it.next_is_defined());
}

#[test]
fn non_ascii_hex_code_is_not_defined() {
    let it = ColorCodeIter::new("${#aé123}x".chars().collect());
    assert!(!it.next_is_defined());
}

#[test]
fn uptime_with_days() {
    assert_eq!(uptime_time(90061, 90061), "1 days, 1 hours, 1 min");
}

#[test]
fn uptime_with_hours() {
    assert_eq!(uptime_time(3700, 3700), "1 hours, 1 mins");
}

#[test]
fn uptime_minutes_only() {
    assert_eq!(uptime_time(59, 59), "0 min");
    assert_eq!(uptime_time(3599, 3599), "59 min");
}

#[test]
fn uptime_hours_wrap_into_days() {
    assert_eq!(uptime_time(2 * 86400 + 5 * 3600 + 7 * 60, 2 * 86400 + 5 * 3600 + 7 * 60), "2 days, 5 hours, 7 min");
}

#[test]
fn uptime_rounding_uses_rounded_hours() {
    // 7259.6 s: rounded 7260 (2 hours), truncated 7259 (0 minutes past).
    assert_eq!(uptime_time(7260, 7259), "2 hours, 0 mins");
}

#[test]
fn uptime_field_takes_first_number() {
    assert_eq!(uptime_field("12345.67 54321.00\n"), "12345.67");
    assert_eq!(uptime_field(""), "");
}

#[test]
fn gpu_list_joins_lines() {
    assert_eq!(gpu_find("GeForce RTX 3060\nUHD Graphics 630\n"), "GeForce RTX 3060, UHD Graphics 630");
}

#[test]
fn gpu_list_two_byte_tail() {
    assert!(gpu_find_accepts("ab\u{e9}"));
    assert_eq!(gpu_find("ab\u{e9}"), "ab");
}

#[test]
fn gpu_list_rejects_short_or_split_tail() {
    assert!(!gpu_find_accepts(""));
    assert!(!gpu_find_accepts("x"));
    assert!(!gpu_find_accepts("\u{e9}x"));
    assert!(!gpu_find_accepts("a\u{20ac}"));
    assert!(gpu_find_accepts("\n"));
    assert_eq!(gpu_find("\n"), "");
}

#[test]
fn gtk_names_lose_line_breaks() {
    assert_eq!(gtk_theme_find("Adwaita-dark\n"), "Adwaita-dark");
    assert_eq!(gtk_icon_find("Papirus\n\n"), "Papirus");
    assert_eq!(gtk_theme_find(""), "");
}

#[test]
fn battery_values_are_trimmed() {
    assert_eq!(
        battery_percentage(" 85%\n", "\tcharging\n"),
        Some(("85%".to_string(), "charging".to_string()))
    );
}

#[test]
fn users_are_joined() {
    assert_eq!(user_list("alice\nbob\n"), Some("alice, bob".to_string()));
    assert_eq!(user_list("   "), Some(String::new()));
}

#[test]
fn device_model_line_breaks_become_spaces() {
    assert_eq!(
        device_model("ThinkPad X1\n", "Gen 9\n"),
        Some("ThinkPad X1 Gen 9 ".to_string())
    );
}

#[test]
fn report_lines_have_fixed_titles() {
    let os = get_os("Arch Linux".to_string()).unwrap();
    assert_eq!((os.title.as_str(), os.text.as_str()), ("OS", "Arch Linux"));
    let k = get_kernel("6.9.1-arch1-1".to_string()).unwrap();
    assert_eq!((k.title.as_str(), k.text.as_str()), ("Kernel", "6.9.1-arch1-1"));
}

#[test]
fn user_and_host_are_title_cased() {
    let u = get_user("john smith").unwrap();
    assert_eq!((u.title.as_str(), u.text.as_str()), ("User", "John Smith"));
    let h = get_host("my laptop").unwrap();
    assert_eq!((h.title.as_str(), h.text.as_str()), ("Host", "My Laptop"));
}

#[test]
fn model_from_dmi_files() {
    let m = get_model(ModelSource::Unix {
        product_name: " Latitude 7420 \n".to_string(),
        product_version: "1.0\n".to_string(),
    })
    .unwrap();
    assert_eq!((m.title.as_str(), m.text.as_str()), ("Model", "Latitude 7420 1.0"));
}

#[test]
fn model_from_wmic_output() {
    let m = get_model(ModelSource::Windows { wmic_output: b"Dell Inc.  XPS 13\r\n".to_vec() }).unwrap();
    assert_eq!(m.text, "Dell Inc.  XPS 13");
    let m = get_model(ModelSource::Windows { wmic_output: vec![0xff, b'A'] }).unwrap();
    assert_eq!(m.text, "\u{fffd}A");
}

#[test]
fn model_from_sysctl_and_unknown() {
    let m = get_model(ModelSource::Macos { sysctl_output: "MacBookPro18,3\n".to_string() }).unwrap();
    assert_eq!(m.text, "MacBookPro18,3\n");
    let m = get_model(ModelSource::Unknown).unwrap();
    assert_eq!(m.text, "Unknown");
}

#[test]
fn command_text_decodes_utf8() {
    assert_eq!(command_text("h\u{e9}".as_bytes()), Some("h\u{e9}".to_string()));
    assert_eq!(command_text(&[0xc3]), None);
}

#[test]
fn home_directories() {
    assert_eq!(home_dir("alice"), "/home/alice");
    assert_eq!(cargo_bin_dir("alice"), "/home/alice/.cargo/bin");
}

#[test]
fn path_is_split_on_colons() {
    assert_eq!(split_path("/usr/bin::/bin"), vec!["/usr/bin", "", "/bin"]);
    assert_eq!(split_path(""), vec![""]);
    assert_eq!(split_path("/a:").join(":"), "/a:");
}

#[test]
fn manager_summary_lists_installed_managers() {
    let m = ManagerReport {
        cargo: Some(3),
        pacman: Some("812\n".to_string()),
        apt: Some("  \n".to_string()),
        flatpak: Some(2),
    };
    assert_eq!(package_managers(&m), "Cargo (3), Pacman (812), Flatpak (2)");
    let none = ManagerReport { cargo: None, pacman: None, apt: Some("1700\n".to_string()), flatpak: None };
    assert_eq!(package_managers(&none), ", APT (1700)");
}

fn sample_path() -> Vec<PathEntry> {
    vec![
        PathEntry { dir: "/usr/bin".to_string(), count: Some(1500) },
        PathEntry { dir: "".to_string(), count: Some(5) },
        PathEntry { dir: "/home/alice/.local/bin".to_string(), count: Some(4) },
        PathEntry { dir: "/opt/none".to_string(), count: None },
        PathEntry { dir: "/empty".to_string(), count: Some(0) },
    ]
}

#[test]
fn path_listing_shows_home_as_tilde() {
    assert_eq!(path_binaries(&sample_path(), "alice"), "/usr/bin (1500), ~/.local/bin (4)");
}

#[test]
fn packages_dispatches_on_which() {
    let m = ManagerReport { cargo: Some(1), pacman: None, apt: None, flatpak: None };
    assert_eq!(packages("package-managers", &m, &Vec::new(), "bob"), Some("Cargo (1)".to_string()));
    assert_eq!(packages("path", &m, &sample_path(), "bob"), Some("/usr/bin (1500), /home/alice/.local/bin (4)".to_string()));
    assert_eq!(packages("other", &m, &Vec::new(), "bob"), Some(String::new()));
}

#[test]
fn trimming_twice_changes_nothing() {
    let (p, s) = battery_percentage("  42% \n", " discharging ").unwrap();
    assert_eq!(battery_percentage(&p, &s), Some((p.clone(), s.clone())));
}

#[test]
fn joined_users_hold_no_line_break() {
    let u = user_list("a\nb\nc\n\n").unwrap();
    assert!(!u.contains('\n'));
    assert_eq!(u, "a, b, c");
}

#[test]
fn decimal_rendering_reads_back() {
    let t = uptime_time(4_000_000_000, 4_000_000_000);
    assert_eq!(t, "46296 days, 7 hours, 6 min");
    let days: u32 = t.split(' ').next().unwrap().parse().unwrap();
    assert_eq!(days, 46296);
}

#[test]
fn non_ascii_hash_codes_without_bad_cut_are_defined() {
    // "é" alone after '#': no slicing, no colour, the colour stays.
    assert_eq!(decode_all("${#\u{e9}}x"), vec![('x', ColorCode::Blue)]);
    // five bytes after '#': not a hexadecimal length.
    assert_eq!(
        decode_all("${red}y${#ab\u{20ac}}x"),
        vec![('y', ColorCode::Red), ('x', ColorCode::Red)]
    );
    // six bytes whose first pair does not parse: the second cut is never made.
    assert_eq!(decode_all("${#zza\u{e9}1}x"), vec![('x', ColorCode::Blue)]);
}

#[test]
fn hash_codes_whose_cut_splits_a_character_are_not_defined() {
    // three bytes, the first character two bytes long: cut at 1 splits it.
    assert!(!ColorCodeIter::new("${#\u{e9}a}x".chars().collect()).next_is_defined());
    // six bytes, first pair parses, cut at 4 splits "é".
    assert!(!ColorCodeIter::new("${#12a\u{e9}1}x".chars().collect()).next_is_defined());
}

#[test]
fn text_without_codes_decodes_to_itself_in_blue() {
    let s = "plain text, 100%!";
    let expected: Vec<(char, ColorCode)> = s.chars().map(|c| (c, ColorCode::Blue)).collect();
    assert_eq!(decode_all(s), expected);
}

#[test]
fn none_stays_none() {
    let mut it = ColorCodeIter::new("a\\".chars().collect());
    assert_eq!(it.next(), Some(('a', ColorCode::Blue)));
    assert_eq!(it.next(), None);
    assert!(it.next_is_defined());
    assert_eq!(it.next(), None);
}

#[test]
fn uptime_fields_add_up_to_truncated_minutes() {
    // 1 day, 2 hours, 3 minutes and 4 seconds.
    let w: u32 = 86400 + 2 * 3600 + 3 * 60 + 4;
    assert_eq!(uptime_time(w, w), "1 days, 2 hours, 3 min");
    assert_eq!(1 * 1440 + 2 * 60 + 3, w / 60);
}

#[test]
fn path_of_two_parts_joins_the_summaries() {
    let a = vec![PathEntry { dir: "/usr/bin".to_string(), count: Some(10) }];
    let b = vec![PathEntry { dir: "/home/bob/bin".to_string(), count: Some(2) }];
    let both: Vec<PathEntry> = vec![
        PathEntry { dir: "/usr/bin".to_string(), count: Some(10) },
        PathEntry { dir: "/home/bob/bin".to_string(), count: Some(2) },
    ];
    let whole = path_binaries(&both, "bob");
    assert_eq!(whole, format!("{}, {}", path_binaries(&a, "bob"), path_binaries(&b, "bob")));
    assert_eq!(whole, "/usr/bin (10), ~/bin (2)");
    assert_eq!(split_path("/usr/bin:/home/bob/bin"), vec!["/usr/bin", "/home/bob/bin"]);
}

#[test]
fn device_model_matches_model_line() {
    let d = device_model("Latitude 7420\n", "1.0\n").unwrap();
    assert_eq!(d, "Latitude 7420 1.0 ");
    let m = get_model(ModelSource::Unix {
        product_name: "Latitude 7420\n".to_string(),
        product_version: "1.0\n".to_string(),
    })
    .unwrap();
    assert_eq!(d.trim_end(), m.text);
}

#[test]
fn unknown_name_keeps_last_accepted_colour() {
    assert_eq!(
        decode_all("x${green}y${nosuch}z"),
        vec![('x', ColorCode::Blue), ('y', ColorCode::Green), ('z', ColorCode::Green)]
    );
}

#[test]
fn decode_all_stops_before_an_unclosed_code() {
    let mut it = ColorCodeIter::new("ab${red".chars().collect());
    assert_eq!(it.decode_all(), vec![('a', ColorCode::Blue), ('b', ColorCode::Blue)]);
    assert!(!it.next_is_defined());
}
