//! Parsed fields back to a filename fragment.

use crate::domain::provenance::{Field, FieldView};
use crate::parse::model::{MovieFields, ParsedMovie};
use crate::text;
use vstd::prelude::*;

verus! {

/// A separator and a value; nothing where the value is unknown.
pub open spec fn suffix(sep: Seq<char>, f: FieldView<Seq<char>>) -> Seq<char> {
    match f {
        FieldView::Known { value, .. } => sep + value,
        FieldView::Unknown { .. } => Seq::empty(),
    }
}

/// A year in parentheses; nothing where it is unknown.
pub open spec fn year_suffix(f: FieldView<u16>) -> Seq<char> {
    match f {
        FieldView::Known { value, .. } => " ("@ + text::decimal(value as nat) + ")"@,
        FieldView::Unknown { .. } => Seq::empty(),
    }
}

/// The canonical filename stem of a movie.
pub open spec fn movie_stem(m: MovieFields) -> Seq<char> {
    suffix(Seq::empty(), m.title) + year_suffix(m.year) + suffix(" - "@, m.edition) + suffix(
        " - "@,
        m.resolution,
    ) + suffix(" - "@, m.source) + suffix(" - "@, m.video_codec) + suffix(" - "@, m.audio_format)
        + suffix(" - "@, m.hdr)
}

/// Appends a separator and a value, where the value is known.
fn push_field(out: &mut String, sep: &str, f: &Field<String>)
    ensures
        final(out)@ == old(out)@ + suffix(sep@, f.deep_view()),
{
    if let Some(v) = f.as_value() {
        out.append(sep);
        out.append(v);
        proof {
            assert(out@ =~= old(out)@ + suffix(sep@, f.deep_view()));
        }
    } else {
        proof {
            assert(out@ =~= old(out)@ + suffix(sep@, f.deep_view()));
        }
    }
}

/// Render a movie to a canonical filename stem.
pub fn render_movie(m: &ParsedMovie) -> (r: String)
    ensures
        r@ == movie_stem(m.deep_view()),
{
    let mut out = String::new();
    proof {
        reveal_strlit("");
        assert(""@ =~= Seq::empty());
    }
    push_field(&mut out, "", &m.title);
    if let Some(y) = m.year.as_value() {
        out.append(" (");
        out.append(&text::decimal_text(*y as u64));
        out.append(")");
    }
    proof {
        assert(out@ =~= suffix(Seq::empty(), m.deep_view().title) + year_suffix(m.deep_view().year));
    }
    push_field(&mut out, " - ", &m.edition);
    push_field(&mut out, " - ", &m.resolution);
    push_field(&mut out, " - ", &m.source);
    push_field(&mut out, " - ", &m.video_codec);
    push_field(&mut out, " - ", &m.audio_format);
    push_field(&mut out, " - ", &m.hdr);
    out
}

} // verus!
