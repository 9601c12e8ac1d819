use media_manager::parse::extractors::{EditionExtractor, Extractor, ResolutionExtractor, YearExtractor};
use media_manager::parse::tokens::tokenize;

#[test]
fn extracts_year_parenthesised() {
    let toks = tokenize("Inception (2010).mkv");
    let c = YearExtractor::new(1888, 2030).extract(&toks, "").unwrap();
    assert_eq!(c.value, "2010");
}

#[test]
fn extracts_resolution() {
    let toks = tokenize("Inception.1080p.mkv");
    let c = ResolutionExtractor.extract(&toks, "").unwrap();
    assert_eq!(c.value, "1080p");
}

#[test]
fn extracts_edition() {
    let norm = "Inception Directors Cut 2010";
    let toks = tokenize(norm);
    let c = EditionExtractor.extract(&toks, norm).unwrap();
    assert_eq!(c.value, "Director's Cut");
}
