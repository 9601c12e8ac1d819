//! What a volume makes of names: case, normalisation and length.
//!
//! Where detection fails the conservative case is assumed: it merges more
//! names, which shows as a conflict and never as a missed collision.

use crate::text;
use crate::unicode;
use vstd::prelude::*;

verus! {

/// Per-target component length cap.
#[derive(Debug, Clone, Copy, PartialEq, Eq, Structural)]
pub enum ComponentLimit {
    /// Counted in UTF-16 code units.
    Utf16Units(u32),
    /// Counted in bytes.
    Bytes(u32),
}

impl ComponentLimit {
    /// The size of a name as this limit counts it.
    pub open spec fn size(self, name: Seq<char>) -> nat {
        match self {
            ComponentLimit::Utf16Units(_) => text::utf16_len(name),
            ComponentLimit::Bytes(_) => text::utf8_len(name),
        }
    }

    /// The greatest size that fits.
    pub open spec fn most(self) -> nat {
        match self {
            ComponentLimit::Utf16Units(n) => n as nat,
            ComponentLimit::Bytes(n) => n as nat,
        }
    }

    /// Whether a name fits.
    pub open spec fn admits(self, name: Seq<char>) -> bool {
        self.size(name) <= self.most()
    }

    /// The clusters that fit, one after the other, up to the first that does
    /// not.
    pub open spec fn fitting(self, clusters: Seq<Seq<char>>, used: nat) -> Seq<char>
        decreases clusters.len(),
    {
        if clusters.len() == 0 || used + self.size(clusters[0]) > self.most() {
            Seq::empty()
        } else {
            clusters[0] + self.fitting(clusters.skip(1), used + self.size(clusters[0]))
        }
    }

    /// A name cut on a grapheme-cluster boundary so that it fits.
    pub open spec fn cut(self, name: Seq<char>) -> Seq<char> {
        self.fitting(unicode::graphemes(name), 0)
    }

    /// The size of a name as this limit counts it.
    fn size_of(&self, name: &str) -> (r: usize)
        ensures
            r as nat == self.size(name@),
    {
        match self {
            ComponentLimit::Utf16Units(_) => text::units_of(name),
            ComponentLimit::Bytes(_) => text::byte_len(name),
        }
    }

    /// The greatest size that fits.
    fn limit(&self) -> (r: u32)
        ensures
            r as nat == self.most(),
    {
        match self {
            ComponentLimit::Utf16Units(n) => *n,
            ComponentLimit::Bytes(n) => *n,
        }
    }

    /// `true` if `name` fits within this limit.
    pub fn fits(&self, name: &str) -> (r: bool)
        ensures
            r == self.admits(name@),
    {
        self.size_of(name) as u64 <= self.limit() as u64
    }

    /// Truncate `name` to fit on a grapheme-cluster boundary.
    pub fn truncate(&self, name: &str) -> (r: String)
        ensures
            r@ == self.cut(name@),
            r@.is_prefix_of(name@),
            self.admits(r@),
            self.admits(name@) ==> r@ == name@,
    {
        let clusters = unicode::to_graphemes(name);
        let ghost v = clusters.deep_view();
        proof {
            lemma_fitting_is_prefix(*self, v, 0);
            law_cut_fits(*self, name@);
            if self.admits(name@) {
                lemma_fitting_is_all(*self, v, 0);
            }
        }
        let most: u64 = self.limit() as u64;
        let mut used: u64 = 0;
        let mut out = String::new();
        let mut i: usize = 0;
        proof {
            assert(v.skip(0) =~= v);
            assert(out@ + self.fitting(v, 0) =~= self.fitting(v, 0));
        }
        while i < clusters.len()
            invariant
                i <= clusters@.len(),
                v == clusters.deep_view(),
                v == unicode::graphemes(name@),
                self.fitting(v, 0).is_prefix_of(name@),
                self.admits(self.fitting(v, 0)),
                self.admits(name@) ==> self.fitting(v, 0) == name@,
                most as nat == self.most(),
                used <= most,
                most <= u32::MAX,
                out@ + self.fitting(v.skip(i as int), used as nat) == self.fitting(v, 0),
            decreases clusters@.len() - i,
        {
            let size: u64 = self.size_of(clusters[i].as_str()) as u64;
            proof {
                assert(v.skip(i as int)[0] == clusters@[i as int]@);
                assert(v.skip(i as int).skip(1) =~= v.skip(i + 1));
            }
            if size > most || used + size > most {
                proof {
                    assert(out@ + Seq::empty() =~= out@);
                }
                return out;
            }
            let ghost before = out@;
            out.append(clusters[i].as_str());
            proof {
                assert(out@ + self.fitting(v.skip(i + 1), (used + size) as nat) =~= before
                    + self.fitting(v.skip(i as int), used as nat));
            }
            used = used + size;
            i = i + 1;
        }
        proof {
            assert(v.skip(i as int) =~= Seq::empty());
            assert(out@ + Seq::empty() =~= out@);
        }
        out
    }
}

/// The clusters that fit are a beginning of the text that all make up.
proof fn lemma_fitting_is_prefix(limit: ComponentLimit, clusters: Seq<Seq<char>>, used: nat)
    ensures
        limit.fitting(clusters, used).is_prefix_of(clusters.flatten()),
    decreases clusters.len(),
{
    if clusters.len() == 0 || used + limit.size(clusters[0]) > limit.most() {
    } else {
        let next = used + limit.size(clusters[0]);
        let rest = limit.fitting(clusters.skip(1), next);
        lemma_fitting_is_prefix(limit, clusters.skip(1), next);
        assert(clusters.skip(1) =~= clusters.drop_first());
        let all = clusters.flatten();
        let whole = limit.fitting(clusters, used);
        assert(all =~= clusters[0] + clusters.drop_first().flatten());
        assert(whole =~= all.subrange(0, whole.len() as int));
    }
}

/// Where all clusters fit, all are taken.
proof fn lemma_fitting_is_all(limit: ComponentLimit, clusters: Seq<Seq<char>>, used: nat)
    requires
        used + limit.size(clusters.flatten()) <= limit.most(),
    ensures
        limit.fitting(clusters, used) == clusters.flatten(),
    decreases clusters.len(),
{
    if clusters.len() > 0 {
        let rest = clusters.drop_first().flatten();
        assert(clusters.skip(1) =~= clusters.drop_first());
        assert(clusters.flatten() =~= clusters[0] + rest);
        text::lemma_utf8_len_concat(clusters[0], rest);
        text::lemma_utf16_len_concat(clusters[0], rest);
        lemma_fitting_is_all(limit, clusters.skip(1), used + limit.size(clusters[0]));
    }
}

/// What is cut to a limit fits it.
pub proof fn law_cut_fits(limit: ComponentLimit, name: Seq<char>)
    ensures
        limit.admits(limit.cut(name)),
{
    lemma_fitting_fits(limit, unicode::graphemes(name), 0);
}

/// The clusters that fit do not exceed what is left.
proof fn lemma_fitting_fits(limit: ComponentLimit, clusters: Seq<Seq<char>>, used: nat)
    requires
        used <= limit.most(),
    ensures
        used + limit.size(limit.fitting(clusters, used)) <= limit.most(),
    decreases clusters.len(),
{
    if clusters.len() == 0 || used + limit.size(clusters[0]) > limit.most() {
    } else {
        let next = used + limit.size(clusters[0]);
        lemma_fitting_fits(limit, clusters.skip(1), next);
        let rest = limit.fitting(clusters.skip(1), next);
        text::lemma_utf8_len_concat(clusters[0], rest);
        text::lemma_utf16_len_concat(clusters[0], rest);
    }
}

/// The volume descriptor used to build collision keys.
#[derive(Debug, Clone, Copy, PartialEq, Eq, Structural)]
pub struct VolumeSemantics {
    pub case_sensitive: bool,
    pub normalisation_sensitive: bool,
    pub max_component: ComponentLimit,
    /// The longest path.
    pub max_total: u32,
}

/// The conservative volume.
pub open spec fn conservative_volume() -> VolumeSemantics {
    VolumeSemantics {
        case_sensitive: false,
        normalisation_sensitive: false,
        max_component: ComponentLimit::Bytes(255),
        max_total: 4096,
    }
}

impl Default for VolumeSemantics {
    fn default() -> (r: Self)
        ensures
            r == conservative_volume(),
    {
        VolumeSemantics::conservative()
    }
}

impl VolumeSemantics {
    /// Conservative default, assumed when detection fails.
    pub fn conservative() -> (r: Self)
        ensures
            r == conservative_volume(),
    {
        VolumeSemantics {
            case_sensitive: false,
            normalisation_sensitive: false,
            max_component: ComponentLimit::Bytes(255),
            max_total: 4096,
        }
    }

    /// A case-sensitive, normalisation-sensitive volume (typical Linux ext4).
    pub fn sensitive_bytes() -> (r: Self)
        ensures
            r == (VolumeSemantics {
                case_sensitive: true,
                normalisation_sensitive: true,
                max_component: ComponentLimit::Bytes(255),
                max_total: 4096,
            }),
    {
        VolumeSemantics {
            case_sensitive: true,
            normalisation_sensitive: true,
            max_component: ComponentLimit::Bytes(255),
            max_total: 4096,
        }
    }

    /// NTFS (Windows) defaults: case-insensitive, normalisation-insensitive,
    /// 255 UTF-16 code unit components, long paths.
    pub fn ntfs() -> (r: Self)
        ensures
            r == (VolumeSemantics {
                case_sensitive: false,
                normalisation_sensitive: false,
                max_component: ComponentLimit::Utf16Units(255),
                max_total: 32_767,
            }),
    {
        VolumeSemantics {
            case_sensitive: false,
            normalisation_sensitive: false,
            max_component: ComponentLimit::Utf16Units(255),
            max_total: 32_767,
        }
    }

    /// APFS: case-insensitive, normalisation-insensitive but preserving.
    pub fn apfs() -> (r: Self)
        ensures
            r == (VolumeSemantics {
                case_sensitive: false,
                normalisation_sensitive: false,
                max_component: ComponentLimit::Bytes(255),
                max_total: 4096,
            }),
    {
        VolumeSemantics {
            case_sensitive: false,
            normalisation_sensitive: false,
            max_component: ComponentLimit::Bytes(255),
            max_total: 4096,
        }
    }

    /// The text that two paths share if the volume takes them for the same.
    pub open spec fn key(self, s: Seq<char>) -> Seq<char> {
        let composed = if self.normalisation_sensitive {
            s
        } else {
            unicode::nfc(s)
        };
        if self.case_sensitive {
            composed
        } else {
            unicode::lowercase(composed)
        }
    }

    /// Build a collision key from a path string under these semantics.
    /// When insensitive, fold to lowercase; when normalisation-insensitive,
    /// fold to NFC.
    pub fn collision_key(&self, s: &str) -> (r: String)
        ensures
            r@ == self.key(s@),
    {
        let composed = if self.normalisation_sensitive {
            s.to_string()
        } else {
            unicode::to_nfc(s)
        };
        if self.case_sensitive {
            composed
        } else {
            unicode::to_lowercase(&composed)
        }
    }
}

/// On a volume that minds both case and normalisation, only the same path
/// collides.
pub proof fn law_sensitive_volume_keeps_paths_apart(v: VolumeSemantics, a: Seq<char>, b: Seq<char>)
    requires
        v.case_sensitive,
        v.normalisation_sensitive,
    ensures
        v.key(a) == v.key(b) <==> a == b,
{
}

/// The no-replace strategy selected per volume.
#[derive(Debug, Clone, Copy, PartialEq, Eq, Structural)]
pub enum NoReplaceStrategy {
    /// Use a kernel no-replace rename primitive.
    Native,
    /// An exclusive-create reservation; always for cross-device moves.
    Reserve,
    /// Check, then rename.
    CheckThenRename,
}

impl NoReplaceStrategy {
    /// The name of the strategy.
    pub fn as_str(self) -> (r: &'static str)
        ensures
            r@ == (match self {
                NoReplaceStrategy::Native => "native"@,
                NoReplaceStrategy::Reserve => "reserve"@,
                NoReplaceStrategy::CheckThenRename => "check_then_rename"@,
            }),
    {
        match self {
            NoReplaceStrategy::Native => "native",
            NoReplaceStrategy::Reserve => "reserve",
            NoReplaceStrategy::CheckThenRename => "check_then_rename",
        }
    }
}

} // verus!
