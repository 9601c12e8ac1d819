use media_manager::domain::path::{
    is_reserved_device_name, join_components, normalise_relative, sanitise_component, FilePath,
    SanitiseMap,
};
use media_manager::domain::path_order::{insert_in_order, ranks_first};
use media_manager::domain::volume::{ComponentLimit, NoReplaceStrategy, VolumeSemantics};

#[test]
fn sanitises_colon_and_question() {
    let map = SanitiseMap::default();
    let s =
        sanitise_component("Movie: Title?", &map, VolumeSemantics::ntfs().max_component).unwrap();
    assert_eq!(s, "Movie - Title");
}

#[test]
fn strips_trailing_dots_and_spaces() {
    let map = SanitiseMap::default();
    let s = sanitise_component("Movie .", &map, VolumeSemantics::ntfs().max_component).unwrap();
    assert_eq!(s, "Movie");
}

#[test]
fn reserved_con_with_extension() {
    assert!(is_reserved_device_name("CON.2010.mkv"));
    assert!(is_reserved_device_name("con"));
    assert!(is_reserved_device_name("PRN.txt"));
    assert!(!is_reserved_device_name("Connect"));
    assert!(is_reserved_device_name("COM1"));
    assert!(!is_reserved_device_name("COM10"));
}

#[test]
fn reserved_name_gets_suffix() {
    let map = SanitiseMap::default();
    let s = sanitise_component("CON.mkv", &map, VolumeSemantics::ntfs().max_component).unwrap();
    assert_eq!(s, "CON_.mkv");
}

#[test]
fn empty_after_sanitise_is_none() {
    let map = SanitiseMap::default();
    // A colon leaves a dash, so it is not among these.
    let s = sanitise_component("???***", &map, VolumeSemantics::ntfs().max_component);
    assert_eq!(s, None);
}

#[test]
fn truncates_on_byte_limit() {
    let map = SanitiseMap::default();
    let long = "あ".repeat(200);
    let s = sanitise_component(&long, &map, ComponentLimit::Bytes(255)).unwrap();
    assert_eq!(s.len(), 255);
}

#[test]
fn normalises_relative_drops_dotdot() {
    let r = normalise_relative(&FilePath::new("a/./b/../c")).unwrap();
    assert!(r.same(&FilePath::new("a/c")));
}

#[test]
fn relative_path_may_not_leave_its_root() {
    assert!(normalise_relative(&FilePath::new("../a")).is_none());
    assert!(normalise_relative(&FilePath::new("a/../../b")).is_none());
    assert!(normalise_relative(&FilePath::new("/a")).is_none());
}

#[test]
fn truncation_keeps_whole_clusters() {
    // A letter with a combining mark is three bytes and stays together.
    let limit = ComponentLimit::Bytes(4);
    assert_eq!(limit.truncate("e\u{301}e\u{301}"), "e\u{301}");
    assert!(limit.fits("abcd"));
    assert!(!limit.fits("abcde"));
}

#[test]
fn sixteen_bit_units_count_pairs_twice() {
    let limit = ComponentLimit::Utf16Units(2);
    assert!(limit.fits("ab"));
    assert!(limit.fits("\u{1F3AC}"));
    assert!(!limit.fits("\u{1F3AC}a"));
}

#[test]
fn collision_keys_ignore_case_and_composition() {
    let v = VolumeSemantics::apfs();
    assert_eq!(v.collision_key("Ame\u{301}lie"), v.collision_key("AM\u{c9}LIE"));
    assert_ne!(v.collision_key("Heat"), v.collision_key("Heat 2"));
    let s = VolumeSemantics::sensitive_bytes();
    assert_eq!(s.collision_key("HEAT"), "HEAT");
}

#[test]
fn path_parts_are_read_and_written() {
    let p = FilePath::new("/lib/Inception (2010)/movie.en.srt");
    assert_eq!(p.to_text(), "/lib/Inception (2010)/movie.en.srt");
    assert_eq!(p.file_name(), Some("movie.en.srt"));
    assert_eq!(p.file_stem(), Some("movie.en".to_string()));
    assert_eq!(p.extension(), Some("srt".to_string()));
    assert_eq!(p.parent().unwrap().to_text(), "/lib/Inception (2010)");
    assert!(p.starts_with(&FilePath::new("/lib")));
    assert!(!p.starts_with(&FilePath::new("/li")));
    assert_eq!(
        p.strip_prefix(&FilePath::new("/lib")).unwrap().to_text(),
        "Inception (2010)/movie.en.srt"
    );
    assert!(p.strip_prefix(&FilePath::new("/other")).is_none());
    assert_eq!(FilePath::new(".hidden").extension(), None);
}

#[test]
fn joined_components_stay_under_the_root() {
    let root = FilePath::new("/lib");
    let p = join_components(&root, &["A".to_string(), "b.mkv".to_string()]);
    assert_eq!(p.to_text(), "/lib/A/b.mkv");
    assert!(p.starts_with(&root));
    assert_eq!(root.child("x").to_text(), "/lib/x");
    assert_eq!(root.join(&FilePath::new("a/b")).to_text(), "/lib/a/b");
}

#[test]
fn ordered_insertion_sorts_and_drops_repeats() {
    let mut list = Vec::new();
    for s in ["/b", "/a/c", "/a", "/b"] {
        insert_in_order(&mut list, FilePath::new(s), false);
    }
    let texts: Vec<String> = list.iter().map(|p| p.to_text()).collect();
    assert_eq!(texts, vec!["/a", "/a/c", "/b"]);
    assert!(ranks_first(&FilePath::new("/a"), &FilePath::new("/b"), false));
}

#[test]
fn strategies_have_names() {
    assert_eq!(NoReplaceStrategy::Native.as_str(), "native");
    assert_eq!(NoReplaceStrategy::Reserve.as_str(), "reserve");
}
