//! Settings, key bindings, recent files and projects.

use peakmuncher::keybindings::{
    key_matches, parse_combo, Bindings, Key, KeyAction, Modifiers, Named,
};
use peakmuncher::project::{
    default_norm_target, default_snap, default_version, default_zoom, make_relative,
    resolve_audio_path, AudioPath, ViewState,
};
use peakmuncher::recent::RecentFiles;
use peakmuncher::settings::{
    parse_hex_color, system_accent, AccentColor, Colour, ExternalTool, HexColor, Settings,
    ThemeChoice, WaveformScheme,
};

fn mods(shift: bool, command: bool, alt: bool) -> Modifiers {
    Modifiers { shift, command, alt }
}

fn key(s: &str) -> Key {
    Key::Character(s.to_string())
}

#[test]
fn every_default_binding_is_found() {
    let b = Bindings::default();
    for action in KeyAction::all() {
        let (m, k) = parse_combo(action.default_combo()).unwrap();
        assert_eq!(b.lookup(m, &k), Some(action), "{}", action.label());
        assert_eq!(b.display(action), action.default_combo());
    }
}

#[test]
fn combos() {
    assert!(matches!(
        parse_combo("Ctrl+Shift+Z"),
        Some((Modifiers { shift: true, command: true, alt: false }, Key::Character(_)))
    ));
    assert!(matches!(parse_combo("alt+PageUp"), Some((_, Key::Named(Named::PageUp)))));
    assert!(matches!(parse_combo("+"), Some((_, Key::Character(c))) if c == "+"));
    assert!(parse_combo("A+B").is_none());
    assert!(parse_combo("Ctrl+Shift").is_none());
    assert!(key_matches(&key("z"), &key("Z")));
    assert!(!key_matches(&key("z"), &Key::Named(Named::Space)));
}

#[test]
fn bindings_of_the_user_win() {
    let mut b = Bindings { list: Vec::new() };
    // a missing binding falls back to its default
    assert_eq!(b.lookup(mods(false, false, false), &Key::Named(Named::Space)), Some(KeyAction::TogglePlay));
    b.list.push((KeyAction::TogglePlay, "P".to_string()));
    assert_eq!(b.lookup(mods(false, false, false), &key("p")), Some(KeyAction::TogglePlay));
    assert_eq!(b.lookup(mods(false, false, false), &Key::Named(Named::Space)), None);
    assert_eq!(b.display(KeyAction::TogglePlay), "P");
    // a malformed one is ignored
    b.list[0].1 = "P+Q".to_string();
    assert_eq!(b.lookup(mods(false, false, false), &Key::Named(Named::Space)), Some(KeyAction::TogglePlay));
    assert_eq!(b.lookup(mods(false, true, false), &key("z")), Some(KeyAction::Undo));
    assert_eq!(b.lookup(mods(true, true, false), &key("z")), Some(KeyAction::Redo));
    assert_eq!(b.lookup(mods(false, false, false), &key("q")), None);
    assert_eq!(b.lookup(mods(false, false, false), &Key::Unidentified), None);
}

#[test]
fn hex_colours_survive() {
    for v in 0..=255u8 {
        let c = HexColor { r: v, g: 255 - v, b: v / 2, a: 255 };
        let text = c.to_text();
        assert_eq!(text, format!("#{:02X}{:02X}{:02X}FF", v, 255 - v, v / 2));
        let back = parse_hex_color(&text).unwrap();
        assert_eq!((back.r, back.g, back.b, back.a), (v, 255 - v, v / 2, 255));
        let again = HexColor::new(back.to_color());
        assert_eq!((again.r, again.g, again.b, again.a), (v, 255 - v, v / 2, 255));
        assert_eq!(f32::from_bits(back.to_color().r), v as f32 / 255.0);
    }
    let d = parse_hex_color("#10203040").unwrap();
    assert_eq!((d.r, d.g, d.b, d.a), (0x10, 0x20, 0x30, 0x40));
    assert!(parse_hex_color("10203").is_none());
    assert!(parse_hex_color("#ggg000").is_none());
    assert!(parse_hex_color("+F+F+F").is_none());
    assert!(parse_hex_color("#\u{e9}\u{e9}\u{e9}").is_none());
}

#[test]
fn accents_and_schemes() {
    assert_eq!(ThemeChoice::all().len(), 2);
    assert_eq!(ThemeChoice::Dark.label(), "Dark");
    assert_eq!(AccentColor::all().len(), 7);
    let system = Colour { r: 1, g: 2, b: 3, a: 4 };
    assert_eq!(AccentColor::System.color(Some(system)), system);
    assert_eq!(AccentColor::System.color(None), AccentColor::Blue.color(None));
    assert_ne!(AccentColor::Red.color(None), AccentColor::Red.color_hover(None));
    let (a, b, c) = (AccentColor::Blue.color(None), system, AccentColor::Red.color(None));
    assert_eq!(WaveformScheme::Custom.colors(a, b, c), (b, c));
    assert_eq!(WaveformScheme::all().len(), 7);
    assert_eq!(WaveformScheme::PeakMuncher.label(), "PeakMuncher");
}

#[test]
fn the_desktop_accent() {
    let text = "[Other]\nAccentColor=1,2,3\n[General]\nName=x\nAccentColor = 61, 174,233\n";
    let (r, g, b) = system_accent(text).unwrap();
    assert_eq!((r.as_str(), g.as_str(), b.as_str()), ("61", "174", "233"));
    assert!(system_accent("[General]\nAccentColor=1,2\n").is_none());
    assert!(system_accent("AccentColor=1,2,3").is_none());
}

#[test]
fn external_tools() {
    let tool = ExternalTool { name: "x".to_string(), command: "prog --in %f -v".to_string() };
    let (program, args) = tool.resolve("/a b/c.wav").unwrap();
    assert_eq!(program, "prog");
    assert_eq!(args, vec!["--in", "/a b/c.wav", "-v"]);
    let none = ExternalTool { name: "x".to_string(), command: "   ".to_string() };
    assert!(none.resolve("f").is_none());
}

#[test]
fn default_settings() {
    let s = Settings::default();
    assert!(matches!(s.theme, ThemeChoice::Dark));
    assert_eq!(s.spectrogram_fft_size, 2048);
    assert!(s.default_open_dir.is_none() && s.external_tools.is_empty());
}

#[test]
fn the_newest_file_comes_first() {
    let mut list = RecentFiles::default();
    for i in 0..10 {
        list.push(&format!("/f{i}"));
    }
    assert_eq!(list.paths.len(), 8);
    assert_eq!(list.paths[0], "/f9");
    list.push("/f5");
    list.push("/f5");
    assert_eq!(list.paths.len(), 8);
    assert_eq!(&list.paths[..3], ["/f5", "/f9", "/f8"]);
}

#[test]
fn where_the_audio_lies() {
    assert_eq!(resolve_audio_path(true, true), AudioPath::Absolute);
    assert_eq!(resolve_audio_path(false, true), AudioPath::Relative);
    assert_eq!(resolve_audio_path(false, false), AudioPath::Missing);
    let p = |s: &str| -> Vec<String> { s.split('/').map(|x| x.to_string()).collect() };
    assert_eq!(make_relative(&p("a/b"), &p("a/b/c/d.wav")), p("c/d.wav"));
    assert_eq!(make_relative(&p("a/b"), &p("a/x.wav")), p("../x.wav"));
    assert_eq!(make_relative(&p("a/b/c"), &p("a/x/y.wav")), p("../../x/y.wav"));
}

#[test]
fn project_defaults() {
    let v = ViewState::default();
    assert_eq!(v.zoom, default_zoom());
    assert_eq!(v.snap_enabled, default_snap());
    assert_eq!(v.normalize_target_db, default_norm_target());
    assert_eq!(f32::from_bits(default_norm_target()), -0.3);
    assert_eq!(default_version(), 1);
}
