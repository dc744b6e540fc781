use vstd::prelude::*;
use vstd::string::StringSliceAdditionalSpecFns;

verus! {

/// The geometric measures a search can rank its hits by.
#[derive(Clone, Copy, Debug, PartialEq, Eq, Structural)]
pub enum DistanceMetric {
    /// Dot product of the two vectors: larger is closer.
    DotProduct,
    /// Cosine of the angle between the two vectors: larger is closer.
    Cosine,
    /// Straight-line distance between the two vectors: smaller is closer.
    HighPrecisionEuclidean,
}

/// Under `m`, does a larger score mean a closer hit?
pub open spec fn higher_is_closer_spec(m: DistanceMetric) -> bool {
    m is DotProduct || m is Cosine
}

impl DistanceMetric {
    /// True for the similarity measures (dot product, cosine), whose hits are
    /// listed best first by descending score; false for the euclidean
    /// distance, whose hits are listed by ascending score.
    pub fn higher_is_closer(&self) -> (r: bool)
        ensures
            r == higher_is_closer_spec(*self),
    {
        match self {
            DistanceMetric::DotProduct => true,
            DistanceMetric::Cosine => true,
            DistanceMetric::HighPrecisionEuclidean => false,
        }
    }
}

/// The metric that a lower-case metric name selects.
pub open spec fn metric_for_name(name: Seq<char>) -> Option<DistanceMetric> {
    if name == "dot_product"@ || name == "dot"@ {
        Some(DistanceMetric::DotProduct)
    } else if name == "cosine"@ {
        Some(DistanceMetric::Cosine)
    } else if name == "euclidean"@ || name == "l2"@ {
        Some(DistanceMetric::HighPrecisionEuclidean)
    } else {
        None
    }
}

/// Text equality, decided on the UTF-8 bytes of the two strings.
pub fn text_eq(a: &str, b: &str) -> (r: bool)
    ensures
        r == (a@ == b@),
{
    broadcast use vstd::utf8::encode_utf8_decode_utf8;
    let ab = a.as_bytes();
    let bb = b.as_bytes();
    if ab.len() != bb.len() {
        return false;
    }
    let mut i: usize = 0;
    while i < ab.len()
        invariant
            ab@ == a.spec_bytes(),
            bb@ == b.spec_bytes(),
            ab@.len() == bb@.len(),
            i <= ab@.len(),
            forall|j: int| 0 <= j < i ==> ab@[j] == bb@[j],
        decreases ab@.len() - i,
    {
        if ab[i] != bb[i] {
            return false;
        }
        i = i + 1;
    }
    assert(ab@ =~= bb@);
    assert(vstd::utf8::decode_utf8(a.spec_bytes()) == a@);
    assert(vstd::utf8::decode_utf8(b.spec_bytes()) == b@);
    true
}

/// Selects the metric named by `name`, which must already be in lower case:
/// `dot_product` or `dot`, `cosine`, `euclidean` or `l2`.
pub fn metric_for_lowercase_name(name: &str) -> (r: Option<DistanceMetric>)
    ensures
        r == metric_for_name(name@),
{
    if text_eq(name, "dot_product") || text_eq(name, "dot") {
        Some(DistanceMetric::DotProduct)
    } else if text_eq(name, "cosine") {
        Some(DistanceMetric::Cosine)
    } else if text_eq(name, "euclidean") || text_eq(name, "l2") {
        Some(DistanceMetric::HighPrecisionEuclidean)
    } else {
        None
    }
}

/// The text that `str::to_lowercase` makes of `s`: the Unicode lower-case
/// mapping of each character.
pub uninterp spec fn lowercase(s: Seq<char>) -> Seq<char>;

/// Calls `str::to_lowercase`. Claimed: the result is the lower-case mapping
/// of `s`, a function of `s` alone, named `lowercase`; nothing more is said
/// of that mapping.
#[verifier::external_body]
fn to_lowercase(s: &str) -> (r: String)
    ensures
        r@ == lowercase(s@),
{
    s.to_lowercase()
}

/// Selects the metric named by `name` in any letter case; `None` where the
/// name is none of `dot_product`, `dot`, `cosine`, `euclidean`, `l2`.
pub fn parse_metric(name: &str) -> (r: Option<DistanceMetric>)
    ensures
        r == metric_for_name(lowercase(name@)),
{
    let lowered = to_lowercase(name);
    metric_for_lowercase_name(lowered.as_str())
}

} // verus!
