//! Where a value came from and how far it can be trusted.
//!
//! Every parsed field carries its source and confidence. A value that comes
//! from [`Source::Fallback`] never justifies a move.

use crate::domain::duplicate::Duplicate;
use vstd::prelude::*;

verus! {

/// Where a field value came from. Which source wins is decided per field, by
/// [`crate::domain::identity::SourcePreference`], not by this order.
#[derive(Debug, Clone, Copy, PartialEq, Eq, Hash, Structural)]
pub enum Source {
    /// ID3, Vorbis comment, MP4 ilst, Matroska tag.
    EmbeddedTag,
    /// Pixel dimensions from a container header.
    ContainerHeader,
    /// A local `.nfo` file.
    Nfo,
    /// An online metadata provider.
    Provider,
    /// The filename itself.
    Filename,
    /// A parent directory name.
    ParentDir,
    /// A configured default, which never justifies a rename.
    Fallback,
}

/// How trustworthy a value is.
#[derive(Debug, Clone, Copy, PartialEq, Eq, Hash, PartialOrd, Ord, Structural)]
pub enum Confidence {
    Low,
    Medium,
    High,
}

impl Confidence {
    /// The place of a confidence in the order low, medium, high.
    pub open spec fn level(self) -> int {
        match self {
            Confidence::Low => 0,
            Confidence::Medium => 1,
            Confidence::High => 2,
        }
    }

    /// The place of a confidence in the order low, medium, high.
    pub fn as_level(self) -> (r: u8)
        ensures
            r as int == self.level(),
    {
        match self {
            Confidence::Low => 0,
            Confidence::Medium => 1,
            Confidence::High => 2,
        }
    }

    /// `true` if this confidence meets or exceeds `minimum`.
    pub fn meets(self, minimum: Confidence) -> (r: bool)
        ensures
            r == (self.level() >= minimum.level()),
    {
        self.as_level() >= minimum.as_level()
    }
}

/// A field is either known, with its provenance, or unknown, with a record of
/// the sources that were tried.
#[derive(Debug, Clone, PartialEq, Eq)]
pub enum Field<T> {
    Known { value: T, source: Source, confidence: Confidence },
    Unknown { attempted: Vec<Source> },
}

/// The contents of a field.
#[verifier::ext_equal]
pub enum FieldView<T> {
    Known { value: T, source: Source, confidence: Confidence },
    Unknown { attempted: Seq<Source> },
}

impl<T> FieldView<T> {
    /// The field about which nothing is known and nothing was tried.
    pub open spec fn blank() -> Self {
        FieldView::Unknown { attempted: Seq::empty() }
    }

    /// The value, if known.
    pub open spec fn ok(self) -> Option<T> {
        match self {
            FieldView::Known { value, .. } => Some(value),
            FieldView::Unknown { .. } => None,
        }
    }

    /// Whether the field is known.
    pub open spec fn is_known(self) -> bool {
        self is Known
    }

    /// Whether the value, if known, comes from a source.
    pub open spec fn is_from(self, from: Source) -> bool {
        self matches FieldView::Known { source, .. } ==> source == from
    }

    /// Whether the value is a configured default.
    pub open spec fn is_fallback(self) -> bool {
        self matches FieldView::Known { source, .. } && source == Source::Fallback
    }

    /// The confidence, if known.
    pub open spec fn confidence(self) -> Option<Confidence> {
        match self {
            FieldView::Known { confidence, .. } => Some(confidence),
            FieldView::Unknown { .. } => None,
        }
    }
}

impl<T: DeepView> DeepView for Field<T> {
    type V = FieldView<T::V>;

    open spec fn deep_view(&self) -> FieldView<T::V> {
        match *self {
            Field::Known { value, source, confidence } => FieldView::Known {
                value: value.deep_view(),
                source,
                confidence,
            },
            Field::Unknown { attempted } => FieldView::Unknown { attempted: attempted@ },
        }
    }
}

impl<T> Default for Field<T> {
    fn default() -> (r: Self)
        ensures
            r matches Field::Unknown { attempted } && attempted@ == Seq::<Source>::empty(),
    {
        Field::Unknown { attempted: Vec::new() }
    }
}

/// Copies a list of sources.
pub fn copy_sources(list: &Vec<Source>) -> (r: Vec<Source>)
    ensures
        r@ == list@,
{
    let mut out: Vec<Source> = Vec::new();
    let mut i: usize = 0;
    while i < list.len()
        invariant
            i <= list@.len(),
            out@ == list@.take(i as int),
        decreases list@.len() - i,
    {
        out.push(list[i]);
        i = i + 1;
    }
    out
}

impl<T: Duplicate> Duplicate for Field<T> {
    fn duplicate(&self) -> (r: Self) {
        match self {
            Field::Known { value, source, confidence } => Field::Known {
                value: value.duplicate(),
                source: *source,
                confidence: *confidence,
            },
            Field::Unknown { attempted } => Field::Unknown { attempted: copy_sources(attempted) },
        }
    }
}

impl<T> Field<T> {
    /// A known field.
    pub fn known(value: T, source: Source, confidence: Confidence) -> (r: Self)
        ensures
            r == (Field::Known { value, source, confidence }),
    {
        Field::Known { value, source, confidence }
    }

    /// An unknown field, with the sources that were tried.
    pub fn unknown(attempted: Vec<Source>) -> (r: Self)
        ensures
            r == (Field::<T>::Unknown { attempted }),
    {
        Field::Unknown { attempted }
    }

    /// `true` if this field is known.
    pub fn is_known(&self) -> (r: bool)
        ensures
            r == (self is Known),
    {
        match self {
            Field::Known { .. } => true,
            Field::Unknown { .. } => false,
        }
    }

    /// Borrow the value if known.
    pub fn as_value(&self) -> (r: Option<&T>)
        ensures
            match *self {
                Field::Known { value, .. } => r == Some(&value),
                Field::Unknown { .. } => r is None,
            },
    {
        match self {
            Field::Known { value, .. } => Some(value),
            Field::Unknown { .. } => None,
        }
    }

    /// The source if known, else `None`.
    pub fn source(&self) -> (r: Option<Source>)
        ensures
            match *self {
                Field::Known { source, .. } => r == Some(source),
                Field::Unknown { .. } => r is None,
            },
    {
        match self {
            Field::Known { source, .. } => Some(*source),
            Field::Unknown { .. } => None,
        }
    }

    /// The confidence if known, else `None`.
    pub fn confidence(&self) -> (r: Option<Confidence>)
        ensures
            match *self {
                Field::Known { confidence, .. } => r == Some(confidence),
                Field::Unknown { .. } => r is None,
            },
    {
        match self {
            Field::Known { confidence, .. } => Some(*confidence),
            Field::Unknown { .. } => None,
        }
    }

    /// `true` if this field comes from [`Source::Fallback`].
    pub fn is_fallback(&self) -> (r: bool)
        ensures
            r == (*self matches Field::Known { source, .. } && source == Source::Fallback),
    {
        match self {
            Field::Known { source, .. } => match source {
                Source::Fallback => true,
                _ => false,
            },
            Field::Unknown { .. } => false,
        }
    }

    /// Transform the inner value of a known field, preserving provenance.
    pub fn map<U, F: FnOnce(T) -> U>(self, f: F) -> (r: Field<U>)
        requires
            self matches Field::Known { value, .. } ==> call_requires(f, (value,)),
        ensures
            match self {
                Field::Known { value, source, confidence } => r matches Field::Known {
                    value: v,
                    source: s,
                    confidence: c,
                } && call_ensures(f, (value,), v) && s == source && c == confidence,
                Field::Unknown { attempted } => r == (Field::<U>::Unknown { attempted }),
            },
    {
        match self {
            Field::Known { value, source, confidence } => Field::Known {
                value: f(value),
                source,
                confidence,
            },
            Field::Unknown { attempted } => Field::Unknown { attempted },
        }
    }

    /// Convert to an `Option<T>` (known value, else `None`).
    pub fn ok(self) -> (r: Option<T>)
        ensures
            match self {
                Field::Known { value, .. } => r == Some(value),
                Field::Unknown { .. } => r is None,
            },
    {
        match self {
            Field::Known { value, .. } => Some(value),
            Field::Unknown { .. } => None,
        }
    }

    /// Map over the known value by reference.
    pub fn as_ref(&self) -> (r: Field<&T>)
        ensures
            match *self {
                Field::Known { value, source, confidence } => r == (Field::<&T>::Known {
                    value: &value,
                    source,
                    confidence,
                }),
                Field::Unknown { attempted } => r matches Field::Unknown { attempted: a } && a@
                    == attempted@,
            },
    {
        match self {
            Field::Known { value, source, confidence } => Field::Known {
                value,
                source: *source,
                confidence: *confidence,
            },
            Field::Unknown { attempted } => Field::Unknown { attempted: copy_sources(attempted) },
        }
    }
}

/// The least source that a field may come from.
#[derive(Debug, Clone, Copy, PartialEq, Eq, Structural)]
pub enum MinSource {
    Filename,
    ParentDir,
    Nfo,
    Provider,
    EmbeddedTag,
    ContainerHeader,
}

impl Default for MinSource {
    fn default() -> (r: Self)
        ensures
            r == MinSource::Filename,
    {
        MinSource::Filename
    }
}

} // verus!
