use media_manager::domain::error::CoreError;
use media_manager::domain::template::{
    is_known_placeholder, is_optional_placeholder, Template, ValueSource,
};
use media_manager::parse::{parse_movie_filename, ParseOptions};
use std::collections::HashMap;

#[derive(Default)]
struct Values(HashMap<String, String>);

impl ValueSource for Values {
    fn get(&self, name: &str) -> Option<String> {
        self.0.get(name).cloned()
    }
}

#[test]
fn parses_movie_template() {
    let t = Template::parse("{title}[ ({year})]").unwrap();
    let mut m = Values::default();
    m.0.insert("title".into(), "Inception".into());
    m.0.insert("year".into(), "2010".into());
    assert_eq!(t.render(&m), "Inception (2010)");
    m.0.remove("year");
    assert_eq!(t.render(&m), "Inception");
}

#[test]
fn rejects_unbracketed_optional() {
    // A year may be missing, so it may not stand bare.
    assert!(Template::parse("{title} {year}").is_err());
}

#[test]
fn rejects_unknown_placeholder() {
    assert!(Template::parse("{notakeword}").is_err());
}

#[test]
fn disc_separator_only_when_present() {
    let t = Template::parse("[{track:02} - ]{title}").unwrap();
    let mut m = Values::default();
    m.0.insert("title".into(), "Song".into());
    assert_eq!(t.render(&m), "Song");
    m.0.insert("track".into(), "01".into());
    assert_eq!(t.render(&m), "01 - Song");
}

#[test]
fn unbalanced_templates_are_refused() {
    for raw in ["{title", "[{title}", "{title}]"] {
        match Template::parse(raw) {
            Err(CoreError::InvalidTemplate(why)) => assert!(!why.is_empty()),
            other => panic!("{raw}: {other:?}"),
        }
    }
}

#[test]
fn placeholders_are_known_by_name() {
    assert!(is_known_placeholder("title"));
    assert!(!is_known_placeholder("titel"));
    assert!(is_optional_placeholder("year"));
    assert!(!is_optional_placeholder("title"));
}

#[test]
fn rendered_title_and_year_are_parsed_back() {
    let opts = ParseOptions { min_year: 1888, max_year: 2027 };
    let template = Template::parse("{title}[ ({year})]").unwrap();
    for (title, year) in [
        ("Heat", Some(1995u16)),
        ("Blade Runner", Some(1982)),
        ("Paris Texas", None),
        ("In The Mood For Love", Some(2000)),
        ("Metropolis", Some(1888)),
        ("Tomorrow", Some(2027)),
    ] {
        let mut m = Values::default();
        m.0.insert("title".to_string(), title.to_string());
        if let Some(y) = year {
            m.0.insert("year".to_string(), y.to_string());
        }
        let parsed = parse_movie_filename(&format!("{}.mkv", template.render(&m)), &opts);
        assert_eq!(parsed.title.as_value().map(String::as_str), Some(title));
        assert_eq!(parsed.year.as_value().copied(), year);
    }
}
