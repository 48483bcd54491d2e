use lite_core::highlight::Highlight;
use lite_core::{
    detect_language, Action, Config, EditorConfig, IndentStyle, Key, KeyEvent, Keymap, LspClient,
    Modifier, Repository,
};

#[test]
fn key_event_constructors() {
    let e = KeyEvent::ctrl('s');
    assert_eq!(e.key, Key::Char('s'));
    assert!(e.modifiers.ctrl && !e.modifiers.alt && !e.modifiers.shift);
    assert_eq!(KeyEvent::char('x').modifiers, Modifier::default());
    assert!(KeyEvent::ctrl_shift('p').modifiers.shift);
    assert!(KeyEvent::alt('j').modifiers.alt);
}

#[test]
fn default_bindings() {
    let map = Keymap::default();
    assert_eq!(map.get(&KeyEvent::ctrl('s')), Some(&Action::Save));
    assert_eq!(map.get(&KeyEvent::ctrl('3')), Some(&Action::SwitchToBuffer(3)));
    assert_eq!(map.get(&KeyEvent::new(Key::Up, Modifier::none())), Some(&Action::MoveUp));
    assert_eq!(map.get(&KeyEvent::new(Key::F(12), Modifier::alt_shift())), None);
}

#[test]
fn insert_replaces_a_binding() {
    let mut map = Keymap::new();
    map.insert(KeyEvent::ctrl('k'), Action::DeleteLine);
    map.insert(KeyEvent::ctrl('k'), Action::Noop);
    map.insert(KeyEvent::alt('k'), Action::Undo);
    assert_eq!(map.get(&KeyEvent::ctrl('k')), Some(&Action::Noop));
    assert_eq!(map.get(&KeyEvent::alt('k')), Some(&Action::Undo));
}

#[test]
fn default_config() {
    let c = Config::default();
    assert_eq!(c.editor.tab_width, 4);
    assert_eq!(c.editor.indent_style, IndentStyle::Spaces);
    assert_eq!(c.editor.scrolloff, 5);
    assert_eq!(EditorConfig::default().cursor_blink, 530);
}

#[test]
fn languages_from_extensions() {
    assert_eq!(detect_language("src/main.rs"), Some("rust".to_string()));
    assert_eq!(detect_language("a/b/page.HTM"), None);
    assert_eq!(detect_language("page.htm"), Some("html".to_string()));
    assert_eq!(detect_language("x.hpp"), Some("cpp".to_string()));
    assert_eq!(detect_language("Makefile"), None);
    assert_eq!(detect_language("notes.txt"), None);
}

#[test]
fn capture_names_to_highlights() {
    assert_eq!(Highlight::from_capture("keyword.return"), Some(Highlight::Keyword));
    assert_eq!(Highlight::from_capture("method.call"), Some(Highlight::Function));
    assert_eq!(Highlight::from_capture("tag.attribute"), Some(Highlight::Attribute));
    assert_eq!(Highlight::from_capture("float"), Some(Highlight::Number));
    assert_eq!(Highlight::from_capture("unknown"), None);
}

#[test]
fn integrations_are_not_connected() {
    assert!(Repository::open(".").is_none());
    let _client = LspClient::new();
}
