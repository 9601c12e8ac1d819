use media_manager::parse::normalize::{normalize_stem, strip_extension, unify_separators};

#[test]
fn strips_short_extension_only() {
    assert_eq!(strip_extension("Movie.2010.mkv"), "Movie.2010");
    // A short alphanumeric run behind a dot cannot be told from an extension.
    assert_eq!(strip_extension("Movie.Name.Without.Ext"), "Movie.Name.Without");
    assert_eq!(
        strip_extension("Movie.Name.With.A.Long.Suffix.Indeed"),
        "Movie.Name.With.A.Long.Suffix.Indeed"
    );
    assert_eq!(strip_extension("noext"), "noext");
    assert_eq!(strip_extension(".hidden"), ".hidden");
}

#[test]
fn unifies_and_collapses() {
    assert_eq!(unify_separators("Movie.Title__2010"), "Movie Title 2010");
    assert_eq!(unify_separators("A  B   C"), "A B C");
}

#[test]
fn keeps_brackets_and_parens() {
    assert_eq!(
        normalize_stem("Movie.Title.(2010).[YTS.MX].mkv"),
        "Movie Title (2010) [YTS MX]"
    );
}

#[test]
fn normalize_never_panics_on_arbitrary_input() {
    for s in ["", ".", "..", "...", "🎬🎬🎬.mkv", "a\u{0}b.mkv"] {
        let _ = normalize_stem(s);
    }
}
