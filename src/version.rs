use vstd::prelude::*;
use core::cmp::Ordering;

verus! {

/// Whether `s` is well-formed semantic version text, as semver's parser decides.
pub uninterp spec fn semver_valid(s: Seq<char>) -> bool;

/// Semantic-version precedence of the version written `a` against the one written `b`.
pub uninterp spec fn semver_cmp(a: Seq<char>, b: Seq<char>) -> Ordering;

/// The ordering seen from the other side.
pub open spec fn reversed(o: Ordering) -> Ordering {
    match o {
        Ordering::Less => Ordering::Greater,
        Ordering::Equal => Ordering::Equal,
        Ordering::Greater => Ordering::Less,
    }
}

/// Every string of `s` is valid version text.
pub open spec fn all_valid(s: Seq<String>) -> bool {
    forall|i: int| 0 <= i < s.len() ==> semver_valid(#[trigger] s[i]@)
}

/// The highest of `s`: a scan from the front that moves to each entry not below
/// the best so far (so the last of equal entries wins).
pub open spec fn max_version(s: Seq<String>) -> String
    decreases s.len(),
{
    if s.len() <= 1 {
        s[0]
    } else {
        let m = max_version(s.drop_last());
        if semver_cmp(s.last()@, m@) == Ordering::Less {
            m
        } else {
            s.last()
        }
    }
}

/// Relies on `semver::Version::parse`: it succeeds exactly on well-formed text.
#[verifier::external_body]
pub(crate) fn is_valid_version(s: &str) -> (r: bool)
    ensures
        r == semver_valid(s@),
{
    semver::Version::parse(s).is_ok()
}

/// Relies on `semver::Version::parse` and the `Ord` of `semver::Version`, a total
/// order: comparing the other way round gives the reverse.
#[verifier::external_body]
pub(crate) fn compare_versions(a: &str, b: &str) -> (r: Ordering)
    requires
        semver_valid(a@),
        semver_valid(b@),
    ensures
        r == semver_cmp(a@, b@),
        semver_cmp(b@, a@) == reversed(r),
{
    semver::Version::parse(a).unwrap().cmp(&semver::Version::parse(b).unwrap())
}

/// Checks that every string of `v` is valid version text.
pub fn check_all_valid(v: &Vec<String>) -> (r: bool)
    ensures
        r == all_valid(v@),
{
    let mut i: usize = 0;
    while i < v.len()
        invariant
            i <= v.len(),
            all_valid(v@.take(i as int)),
        decreases v.len() - i,
    {
        if !is_valid_version(v[i].as_str()) {
            return false;
        }
        assert(v@.take(i + 1) =~= v@.take(i as int).push(v@[i as int]));
        i += 1;
    }
    assert(v@.take(i as int) =~= v@);
    true
}

/// The highest version of a non-empty list of valid versions.
pub fn highest_version(v: &Vec<String>) -> (r: String)
    requires
        v.len() > 0,
        all_valid(v@),
    ensures
        r == max_version(v@),
{
    let mut best: String = v[0].clone();
    assert(v@.take(1).drop_last() =~= v@.take(0));
    let mut i: usize = 1;
    while i < v.len()
        invariant
            1 <= i <= v.len(),
            all_valid(v@),
            best == max_version(v@.take(i as int)),
        decreases v.len() - i,
    {
        assert(v@.take(i + 1).drop_last() =~= v@.take(i as int));
        proof {
            let t = v@.take(i as int);
            assert(semver_valid(v@[i as int]@));
            assert(t.len() > 0);
            lemma_max_in(t);
        }
        match compare_versions(v[i].as_str(), best.as_str()) {
            Ordering::Less => {},
            _ => {
                best = v[i].clone();
            },
        }
        i += 1;
    }
    assert(v@.take(i as int) =~= v@);
    best
}

/// The highest version is one of the list.
pub proof fn lemma_max_in(s: Seq<String>)
    requires
        s.len() > 0,
    ensures
        s.contains(max_version(s)),
    decreases s.len(),
{
    if s.len() > 1 {
        lemma_max_in(s.drop_last());
        let m = max_version(s.drop_last());
        let k = choose|k: int| 0 <= k < s.drop_last().len() && s.drop_last()[k] == m;
        assert(s[k] == m);
        assert(s[s.len() - 1] == s.last());
    } else {
        assert(s[0] == s[0]);
    }
}

} // verus!
