use imageguide::settings::{load, parse, path, reads_as_number, render, Memory, Settings};
use imageguide::sirv::{Environment, Platform};

fn settings(width: Option<f32>, height: Option<f32>, folder: Option<&str>) -> Settings {
    Settings {
        width: width.map(|value| value.to_string()),
        height: height.map(|value| value.to_string()),
        folder: folder.map(str::to_string),
    }
}

fn number(text: &Option<String>) -> Option<f32> {
    text.as_ref().map(|text| text.parse().unwrap())
}

#[test]
fn a_saved_file_reads_back_the_same() {
    let settings = settings(Some(1280.), Some(720.5), Some("/home/igor/Pictures"));
    let back = parse(&render(&settings));
    assert_eq!(number(&back.width), Some(1280.));
    assert_eq!(number(&back.height), Some(720.5));
    assert_eq!(back.folder.as_deref(), Some("/home/igor/Pictures"));
}

#[test]
fn nonsense_is_ignored_rather_than_fatal() {
    let settings = parse("width=not-a-number\nnokeyhere\n\nheight=600\n");
    assert_eq!(settings.width, None);
    assert_eq!(number(&settings.height), Some(600.));
    assert_eq!(settings.folder, None);
}

#[test]
fn a_folder_with_spaces_survives() {
    let settings = settings(None, None, Some("/home/igor/My Photos"));
    assert_eq!(parse(&render(&settings)).folder, settings.folder);
}

#[test]
fn the_last_line_wins_even_where_it_is_nonsense() {
    assert_eq!(parse("width=1\nwidth=2\r\n").width.as_deref(), Some("2"));
    assert_eq!(parse("width=1\nwidth=two\n").width, None);
    assert_eq!(parse(" folder = /a = b \n").folder.as_deref(), Some("/a = b"));
    assert!(load(None).folder.is_none());
    assert_eq!(load(Some("height=3")).height.as_deref(), Some("3"));
}

#[test]
fn numbers_are_those_the_standard_library_reads() {
    let texts = [
        "", "+", "-", ".", "1", "-1", "+1.5", ".5", "5.", "1.2.3", "1e5", "1E-5", "1e", "e5",
        "1e+", "1e+5", "inf", "-INF", "Infinity", "infinit", "nan", "NaN", "+nan", "0x10", "1_0",
        " 1", "1 ", "--1", "1f", "١", "1e5.5", "1e5e5", "1E5e5", "-.5e-3", ".e1",
    ];
    for text in texts {
        assert_eq!(
            reads_as_number(text),
            text.parse::<f32>().is_ok(),
            "{text:?}"
        );
    }
}

#[test]
fn the_settings_live_beside_the_credentials() {
    let environment = Environment {
        appdata: Some("/app".to_string()),
        home: Some("/home/me".to_string()),
        xdg_config_home: None,
    };
    let at = |platform| path(platform, &environment);
    assert_eq!(
        at(Platform::Other).as_deref(),
        Some("/home/me/.config/imageguide/settings")
    );
    assert_eq!(
        at(Platform::MacOs).as_deref(),
        Some("/home/me/Library/Application Support/imageguide/settings")
    );
    assert_eq!(
        at(Platform::Windows).as_deref(),
        Some("/app/imageguide/settings")
    );
    let nothing = Environment {
        appdata: None,
        home: None,
        xdg_config_home: Some("/xdg".to_string()),
    };
    assert_eq!(
        path(Platform::Other, &nothing).as_deref(),
        Some("/xdg/imageguide/settings")
    );
    assert_eq!(path(Platform::MacOs, &nothing), None);
}

#[test]
fn one_delayed_save_collects_a_whole_drag() {
    let mut memory = Memory::new();
    assert!(!memory.remember(settings(None, None, None)), "nothing changed");
    assert!(memory.remember(settings(Some(900.), Some(640.), None)));
    assert!(!memory.remember(settings(Some(901.), Some(640.), None)), "one is on its way");
    assert_eq!(memory.due(), "width=901\nheight=640\n");
    assert!(!memory.remember(settings(Some(901.), Some(640.), None)));
    assert!(memory.remember(settings(Some(902.), Some(640.), None)));
}
