//! Version identifiers: parsing through pep440_rs and the breaking-change policy.
use vstd::prelude::*;

verus! {

#[verifier::external_type_specification]
#[verifier::external_body]
pub struct ExPep440ParseError(pep440_rs::VersionParseError);

/// What pep440_rs makes of a version string: `None` where it rejects it, else the
/// epoch and the release segments.
pub uninterp spec fn pep440_parse(s: Seq<char>) -> Option<(u64, Seq<u64>)>;

/// Relies on `<pep440_rs::Version as FromStr>::from_str`, read back through
/// `Version::epoch` and `Version::release`. The parser always pushes the first
/// release number before it succeeds, and fails on an empty string.
#[verifier::external_body]
fn parse_pep440(s: &str) -> (r: Result<(u64, Vec<u64>), pep440_rs::VersionParseError>)
    ensures
        match r {
            Ok(p) => pep440_parse(s@) == Some((p.0, p.1@)) && p.1@.len() > 0,
            Err(_) => pep440_parse(s@) is None,
        },
        s@.len() == 0 ==> r is Err,
{
    s.parse::<pep440_rs::Version>().map(|v| (v.epoch(), v.release().to_vec()))
}

/// A version string that could not be parsed.
#[derive(Debug, Clone, PartialEq, Eq)]
pub struct InvalidVersion {
    pub input: String,
}

/// A parsed version: epoch and release segments. Pre-, post-, dev- and local
/// qualifiers are accepted by the parser but play no part in the policy.
#[derive(Debug, Clone, PartialEq, Eq)]
pub struct Version {
    pub epoch: u64,
    pub release: Vec<u64>,
}

/// Segment `i` of a release, with missing segments read as zero.
pub open spec fn segment(release: Seq<u64>, i: int) -> u64 {
    if 0 <= i < release.len() {
        release[i]
    } else {
        0
    }
}

/// The policy: a rise of the major segment is breaking, and so is a rise of the
/// minor segment while both majors are zero. Nothing else is.
pub open spec fn breaking(old: Seq<u64>, new: Seq<u64>) -> bool {
    segment(new, 0) > segment(old, 0) || (segment(old, 0) == 0 && segment(new, 0) == 0
        && segment(new, 1) > segment(old, 1))
}

/// `a` comes before `b` when release segments are compared in order, missing
/// segments read as zero.
pub open spec fn release_less(a: Seq<u64>, b: Seq<u64>) -> bool {
    exists|i: nat|
        (forall|j: nat| j < i ==> segment(a, j as int) == segment(b, j as int)) && segment(
            a,
            i as int,
        ) < segment(b, i as int)
}

impl Version {
    /// A parsed version has at least one release segment.
    pub open spec fn wf(&self) -> bool {
        self.release@.len() > 0
    }

    /// Parses a version string; fails where pep440_rs rejects it.
    pub fn parse(s: &str) -> (r: Result<Version, InvalidVersion>)
        ensures
            match r {
                Ok(v) => pep440_parse(s@) == Some((v.epoch, v.release@)) && v.wf(),
                Err(e) => pep440_parse(s@) is None && e.input@ == s@,
            },
            s@.len() == 0 ==> r is Err,
    {
        match parse_pep440(s) {
            Ok(p) => Ok(Version { epoch: p.0, release: p.1 }),
            Err(_) => Err(InvalidVersion { input: s.to_owned() }),
        }
    }
}

/// Segment `i` of a release, zero where the release is shorter.
fn segment_at(release: &Vec<u64>, i: usize) -> (r: u64)
    ensures
        r == segment(release@, i as int),
{
    if i < release.len() {
        release[i]
    } else {
        0
    }
}

/// Whether going from `old` to `new` is a breaking bump. The epoch is not
/// consulted: only the release segments decide.
pub fn is_breaking(old: &Version, new: &Version) -> (r: bool)
    ensures
        r == breaking(old.release@, new.release@),
{
    let old_major = segment_at(&old.release, 0);
    let new_major = segment_at(&new.release, 0);
    if new_major > old_major {
        return true;
    }
    old_major == 0 && new_major == 0 && segment_at(&new.release, 1) > segment_at(&old.release, 1)
}

/// A version never breaks against itself.
pub proof fn lemma_same_version_not_breaking(v: Seq<u64>)
    ensures
        !breaking(v, v),
{
}

/// A rise of the major segment is breaking, whatever the other segments hold.
pub proof fn lemma_major_rise_breaking(old: Seq<u64>, new: Seq<u64>)
    requires
        segment(new, 0) > segment(old, 0),
    ensures
        breaking(old, new),
{
}

/// Below major version one, a rise of the minor segment is breaking.
pub proof fn lemma_zero_major_minor_rise_breaking(old: Seq<u64>, new: Seq<u64>)
    requires
        segment(old, 0) == 0,
        segment(new, 0) == 0,
        segment(new, 1) > segment(old, 1),
    ensures
        breaking(old, new),
{
}

/// A downgrade is never breaking.
pub proof fn lemma_downgrade_not_breaking(old: Seq<u64>, new: Seq<u64>)
    requires
        release_less(new, old),
    ensures
        !breaking(old, new),
{
    let i = choose|i: nat|
        (forall|j: nat| j < i ==> segment(new, j as int) == segment(old, j as int)) && segment(
            new,
            i as int,
        ) < segment(old, i as int);
    if i > 0 {
        assert(segment(new, 0) == segment(old, 0));
        if i > 1 {
            assert(segment(new, 1) == segment(old, 1));
        }
    }
}

} // verus!
