//! Decisions of one render that do not touch the signal: where the features
//! come from, whether the output is written, and the note's pitch targets.
use vstd::prelude::*;
use crate::text::chars_of;

verus! {

/// Where the analysis features of a render come from.
#[derive(Debug, Clone, Copy, PartialEq, Eq)]
pub enum FeatureSource {
    /// Load them from the sidecar file beside the sample.
    Cached,
    /// Analyse the sample (and write a new sidecar).
    Analyze,
}

/// The cached features are used only when the `G` flag asks for them and
/// the sidecar exists.
pub fn choose_feature_source(force_features: bool, sidecar_exists: bool) -> (r: FeatureSource)
    ensures
        r == (if force_features && sidecar_exists {
            FeatureSource::Cached
        } else {
            FeatureSource::Analyze
        }),
{
    if force_features && sidecar_exists {
        FeatureSource::Cached
    } else {
        FeatureSource::Analyze
    }
}

/// Whether a render writes its output: not when the output path is `nul`.
pub fn writes_output(path: &str) -> (r: bool)
    ensures
        r == (path@ != seq!['n', 'u', 'l']),
{
    let s = chars_of(path);
    let null = s.len() == 3 && s[0] == 'n' && s[1] == 'u' && s[2] == 'l';
    proof {
        if null {
            assert(path@ =~= seq!['n', 'u', 'l']);
        } else if s.len() == 3 {
            assert(path@ != seq!['n', 'u', 'l']) by {
                if path@ == seq!['n', 'u', 'l'] {
                    assert(path@[0] == 'n' && path@[1] == 'u' && path@[2] == 'l');
                }
            }
        }
    }
    !null
}

/// The pitch of the note at each pitchbend sample, in cents of MIDI pitch:
/// `100 * midi + pitchbend[k]`.
pub fn pitch_cents(pitchbend: &Vec<i16>, midi: i32) -> (r: Vec<i64>)
    ensures
        r@.len() == pitchbend@.len(),
        forall|k: int| 0 <= k < r@.len() ==> #[trigger] r@[k] == 100 * midi + pitchbend@[k],
{
    let mut r: Vec<i64> = Vec::new();
    for k in 0..pitchbend.len()
        invariant
            r@.len() == k,
            forall|j: int| 0 <= j < k ==> #[trigger] r@[j] == 100 * midi + pitchbend@[j],
    {
        r.push(100 * midi as i64 + pitchbend[k] as i64);
    }
    r
}

} // verus!
