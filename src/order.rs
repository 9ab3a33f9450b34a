use vstd::prelude::*;
use core::cmp::Ordering;
use crate::graph::UpgradeResult;
use crate::version::{semver_cmp, semver_valid, compare_versions};

verus! {

/// `x` placed before the first entry of `s` that it does not exceed.
pub open spec fn insert_by_version(s: Seq<UpgradeResult>, x: UpgradeResult) -> Seq<UpgradeResult>
    decreases s.len(),
{
    if s.len() == 0 {
        seq![x]
    } else if semver_cmp(x.version@, s[0].version@) != Ordering::Greater {
        seq![x] + s
    } else {
        seq![s[0]] + insert_by_version(s.drop_first(), x)
    }
}

/// The records of `s` ordered by version, by insertion in turn.
pub open spec fn sort_by_version(s: Seq<UpgradeResult>) -> Seq<UpgradeResult>
    decreases s.len(),
{
    if s.len() == 0 {
        Seq::empty()
    } else {
        insert_by_version(sort_by_version(s.drop_last()), s.last())
    }
}

/// Each record's version does not exceed the next one's.
pub open spec fn version_sorted(s: Seq<UpgradeResult>) -> bool {
    forall|i: int| 0 <= i < s.len() - 1 ==> #[trigger] semver_cmp(s[i].version@, s[i + 1].version@) != Ordering::Greater
}

/// No two records carry the same version.
pub open spec fn distinct_versions(s: Seq<UpgradeResult>) -> bool {
    forall|i: int, j: int| 0 <= i < s.len() && 0 <= j < s.len() && i != j ==> #[trigger] s[i].version@ != #[trigger] s[j].version@
}

/// Every record's version is valid version text.
pub open spec fn records_valid(s: Seq<UpgradeResult>) -> bool {
    forall|i: int| 0 <= i < s.len() ==> semver_valid(#[trigger] s[i].version@)
}

/// Inserting at the first position that `x` does not exceed is the insertion of the model.
proof fn lemma_insert_at(s: Seq<UpgradeResult>, x: UpgradeResult, p: int)
    requires
        0 <= p <= s.len(),
        forall|j: int| 0 <= j < p ==> semver_cmp(x.version@, #[trigger] s[j].version@) == Ordering::Greater,
        p < s.len() ==> semver_cmp(x.version@, s[p].version@) != Ordering::Greater,
    ensures
        insert_by_version(s, x) =~= s.take(p) + seq![x] + s.skip(p),
    decreases p,
{
    if p == 0 {
        assert(s.take(0) + seq![x] + s.skip(0) =~= seq![x] + s);
    } else {
        let t = s.drop_first();
        assert forall|j: int| 0 <= j < p - 1 implies semver_cmp(x.version@, #[trigger] t[j].version@) == Ordering::Greater by {
            assert(t[j] == s[j + 1]);
        }
        if p - 1 < t.len() {
            assert(t[p - 1] == s[p]);
        }
        assert(semver_cmp(x.version@, s[0].version@) == Ordering::Greater);
        lemma_insert_at(t, x, p - 1);
        assert(seq![s[0]] + (t.take(p - 1) + seq![x] + t.skip(p - 1)) =~= s.take(p) + seq![x] + s.skip(p));
    }
}

/// Insertion adds `x` and keeps every other record.
pub proof fn lemma_insert_members(s: Seq<UpgradeResult>, x: UpgradeResult)
    ensures
        forall|r: UpgradeResult| #[trigger] insert_by_version(s, x).contains(r) <==> (r == x || s.contains(r)),
    decreases s.len(),
{
    if s.len() > 0 && semver_cmp(x.version@, s[0].version@) == Ordering::Greater {
        let t = s.drop_first();
        lemma_insert_members(t, x);
        assert forall|r: UpgradeResult| #[trigger] insert_by_version(s, x).contains(r) <==> (r == x || s.contains(r)) by {
            let z = insert_by_version(t, x);
            assert(insert_by_version(s, x) == seq![s[0]] + z);
            if insert_by_version(s, x).contains(r) {
                let k = choose|k: int| 0 <= k < insert_by_version(s, x).len() && insert_by_version(s, x)[k] == r;
                if k > 0 {
                    assert(z[k - 1] == r);
                    assert(z.contains(r));
                    if r != x {
                        let m = choose|m: int| 0 <= m < t.len() && t[m] == r;
                        assert(s[m + 1] == r);
                    }
                } else {
                    assert(s[0] == r);
                }
            }
            if r == x {
                assert(z.contains(r));
                let k = choose|k: int| 0 <= k < z.len() && z[k] == r;
                assert(insert_by_version(s, x)[k + 1] == r);
            } else if s.contains(r) {
                let m = choose|m: int| 0 <= m < s.len() && s[m] == r;
                if m == 0 {
                    assert(insert_by_version(s, x)[0] == r);
                } else {
                    assert(t[m - 1] == r);
                    assert(t.contains(r));
                    assert(z.contains(r));
                    let k = choose|k: int| 0 <= k < z.len() && z[k] == r;
                    assert(insert_by_version(s, x)[k + 1] == r);
                }
            }
        }
    } else if s.len() > 0 {
        assert forall|r: UpgradeResult| #[trigger] insert_by_version(s, x).contains(r) <==> (r == x || s.contains(r)) by {
            let z = insert_by_version(s, x);
            assert(z == seq![x] + s);
            if z.contains(r) {
                let k = choose|k: int| 0 <= k < z.len() && z[k] == r;
                if k > 0 {
                    assert(s[k - 1] == r);
                }
            }
            if r == x {
                assert(z[0] == r);
            } else if s.contains(r) {
                let m = choose|m: int| 0 <= m < s.len() && s[m] == r;
                assert(z[m + 1] == r);
            }
        }
    } else {
        assert forall|r: UpgradeResult| #[trigger] insert_by_version(s, x).contains(r) <==> (r == x || s.contains(r)) by {
            assert(insert_by_version(s, x)[0] == x);
        }
    }
}

/// Sorting keeps exactly the records it was given.
pub proof fn lemma_sort_members(s: Seq<UpgradeResult>)
    ensures
        forall|r: UpgradeResult| #[trigger] sort_by_version(s).contains(r) <==> s.contains(r),
    decreases s.len(),
{
    if s.len() > 0 {
        let t = s.drop_last();
        lemma_sort_members(t);
        lemma_insert_members(sort_by_version(t), s.last());
        assert forall|r: UpgradeResult| #[trigger] sort_by_version(s).contains(r) <==> s.contains(r) by {
            if t.contains(r) {
                let m = choose|m: int| 0 <= m < t.len() && t[m] == r;
                assert(s[m] == r);
            }
            if r == s.last() {
                assert(s[s.len() - 1] == r);
            }
            if s.contains(r) && r != s.last() {
                let m = choose|m: int| 0 <= m < s.len() && s[m] == r;
                assert(m < s.len() - 1);
                assert(t[m] == r);
            }
        }
    }
}

/// Inserts `x` before the first record whose version it does not exceed.
fn insert_record(out: &mut Vec<UpgradeResult>, x: UpgradeResult)
    requires
        records_valid(old(out)@),
        semver_valid(x.version@),
        version_sorted(old(out)@),
    ensures
        final(out)@ == insert_by_version(old(out)@, x),
        version_sorted(final(out)@),
        records_valid(final(out)@),
        (distinct_versions(old(out)@) && forall|c: int| 0 <= c < old(out)@.len() ==> (#[trigger] old(out)@[c]).version@ != x.version@)
            ==> distinct_versions(final(out)@),
{
    let mut p: usize = 0;
    while p < out.len()
        invariant
            p <= out.len(),
            out@ == old(out)@,
            semver_valid(x.version@),
            records_valid(out@),
            forall|j: int| 0 <= j < p ==> semver_cmp(x.version@, #[trigger] out@[j].version@) == Ordering::Greater,
            forall|j: int| 0 <= j < p ==> semver_cmp(#[trigger] out@[j].version@, x.version@) == Ordering::Less,
        ensures
            p <= out.len(),
            p < out.len() ==> semver_cmp(x.version@, out@[p as int].version@) != Ordering::Greater,
        decreases out.len() - p,
    {
        assert(semver_valid(out@[p as int].version@));
        let o = compare_versions(x.version.as_str(), out[p].version.as_str());
        match o {
            Ordering::Greater => {},
            _ => {
                break;
            },
        }
        p += 1;
    }
    let ghost before = out@;
    proof {
        lemma_insert_at(before, x, p as int);
    }
    out.insert(p, x);
    proof {
        lemma_spliced(before, x, p as int, out@);
    }
}

/// What placing `x` at position `p` keeps of a sorted, valid, distinct list.
proof fn lemma_spliced(before: Seq<UpgradeResult>, x: UpgradeResult, p: int, after: Seq<UpgradeResult>)
    requires
        0 <= p <= before.len(),
        after == before.insert(p, x),
        records_valid(before),
        semver_valid(x.version@),
        version_sorted(before),
        forall|j: int| 0 <= j < p ==> semver_cmp(#[trigger] before[j].version@, x.version@) == Ordering::Less,
        p < before.len() ==> semver_cmp(x.version@, before[p].version@) != Ordering::Greater,
    ensures
        version_sorted(after),
        records_valid(after),
        (distinct_versions(before) && forall|c: int| 0 <= c < before.len() ==> (#[trigger] before[c]).version@ != x.version@)
            ==> distinct_versions(after),
{
    assert(after.len() == before.len() + 1);
    assert forall|j: int| 0 <= j < after.len() - 1 implies #[trigger] semver_cmp(after[j].version@, after[j + 1].version@) != Ordering::Greater by {
        if j + 1 < p {
            assert(after[j] == before[j] && after[j + 1] == before[j + 1]);
        } else if j + 1 == p {
            assert(after[j] == before[j] && after[j + 1] == x);
        } else if j == p {
            assert(after[j] == x && after[j + 1] == before[j]);
        } else {
            assert(after[j] == before[j - 1] && after[j + 1] == before[j]);
            let k = j - 1;
            assert(semver_cmp(before[k].version@, before[k + 1].version@) != Ordering::Greater);
            assert(k + 1 == j);
        }
    }
    assert forall|j: int| 0 <= j < after.len() implies semver_valid(#[trigger] after[j].version@) by {
        if j < p {
            assert(after[j] == before[j]);
        } else if j > p {
            assert(after[j] == before[j - 1]);
        }
    }
    if distinct_versions(before) && forall|c: int| 0 <= c < before.len() ==> (#[trigger] before[c]).version@ != x.version@ {
        assert forall|a: int, b: int| 0 <= a < after.len() && 0 <= b < after.len() && a != b implies #[trigger] after[a].version@ != #[trigger] after[b].version@ by {
            let aa = if a < p { a } else { a - 1 };
            let bb = if b < p { b } else { b - 1 };
            if a != p {
                assert(after[a] == before[aa]);
            }
            if b != p {
                assert(after[b] == before[bb]);
            }
        }
    }
}

/// A record not in a list of distinct versions is distinct from all of it.
proof fn lemma_fresh(all: Seq<UpgradeResult>, i: int, out: Seq<UpgradeResult>)
    requires
        0 <= i < all.len(),
        distinct_versions(all),
        out == sort_by_version(all.take(i)),
    ensures
        forall|c: int| 0 <= c < out.len() ==> (#[trigger] out[c]).version@ != all[i].version@,
{
    lemma_sort_members(all.take(i));
    assert forall|c: int| 0 <= c < out.len() implies (#[trigger] out[c]).version@ != all[i].version@ by {
        assert(out.contains(out[c]));
        let m = choose|m: int| 0 <= m < i && all.take(i)[m] == out[c];
        assert(all[m] == out[c]);
    }
}

/// Orders records by version, by insertion in turn.
pub fn sort_records(s: Vec<UpgradeResult>) -> (out: Vec<UpgradeResult>)
    requires
        records_valid(s@),
    ensures
        out@ == sort_by_version(s@),
        version_sorted(out@),
        distinct_versions(s@) ==> distinct_versions(out@),
{
    let mut out: Vec<UpgradeResult> = Vec::new();
    let mut rest = s;
    let ghost all = rest@;
    let n: usize = rest.len();
    let mut i: usize = 0;
    while i < n
        invariant
            n == all.len(),
            i <= n,
            rest@ == all.skip(i as int),
            records_valid(all),
            records_valid(out@),
            out@ == sort_by_version(all.take(i as int)),
            version_sorted(out@),
            distinct_versions(all) ==> distinct_versions(out@),
        decreases n - i,
    {
        assert(all.take(i + 1).drop_last() =~= all.take(i as int));
        assert(rest@[0] == all[i as int]);
        let x = rest.remove(0);
        assert(rest@ =~= all.skip(i + 1));
        assert(semver_valid(all[i as int].version@));
        proof {
            if distinct_versions(all) {
                lemma_fresh(all, i as int, out@);
            }
        }
        insert_record(&mut out, x);
        i += 1;
    }
    assert(all.take(i as int) =~= all);
    out
}

} // verus!
