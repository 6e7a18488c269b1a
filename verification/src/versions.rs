use vstd::prelude::*;

use crate::strutil::{lemma_deep_view_insert, lemma_deep_view_push, lemma_filter_push};

verus! {

// ---------------------------------------------------------------------------
// Trusted view of the semantic-version parser and its precedence order.
// ---------------------------------------------------------------------------

/// Whether `semver::Version::parse` accepts the string; the outcome depends
/// on the string alone.
pub uninterp spec fn semver_ok(s: Seq<char>) -> bool;

/// The total order that `semver::Version`'s `Ord` gives to two parseable
/// version strings; it depends on the two strings alone.
pub uninterp spec fn semver_le(a: Seq<char>, b: Seq<char>) -> bool;

/// Relies on `semver::Version::parse`: whether a string is a valid semantic
/// version is a function of the string's characters alone.
#[verifier::external_body]
fn semver_parses(s: &String) -> (r: bool)
    ensures
        r == semver_ok(s@),
{
    semver::Version::parse(s).is_ok()
}

/// Relies on `semver::Version::parse` and on the `Ord` impl of
/// `semver::Version`. `Ord` is a total order, hence the totality and
/// transitivity clauses. Parsing is strict and each field is kept verbatim,
/// so two distinct strings never parse to versions that compare equal, hence
/// the antisymmetry clause ends in string equality.
#[verifier::external_body]
fn semver_le_exec(a: &String, b: &String) -> (r: bool)
    requires
        semver_ok(a@),
        semver_ok(b@),
    ensures
        r == semver_le(a@, b@),
        r || semver_le(b@, a@),
        r && semver_le(b@, a@) ==> a@ == b@,
        forall|c: Seq<char>| r && #[trigger] semver_le(b@, c) ==> semver_le(a@, c),
        forall|c: Seq<char>| r && #[trigger] semver_le(c, a@) ==> semver_le(c, b@),
{
    let va = semver::Version::parse(a).unwrap();
    let vb = semver::Version::parse(b).unwrap();
    va <= vb
}

// ---------------------------------------------------------------------------
// Partitioning version directory names and ordering the parseable ones.
// ---------------------------------------------------------------------------

pub open spec fn is_orderable_fn() -> spec_fn(Seq<char>) -> bool {
    |s: Seq<char>| semver_ok(s)
}

pub open spec fn is_opaque_fn() -> spec_fn(Seq<char>) -> bool {
    |s: Seq<char>| !semver_ok(s)
}

pub open spec fn all_orderable(v: Seq<Seq<char>>) -> bool {
    forall|k: int| 0 <= k < v.len() ==> semver_ok(#[trigger] v[k])
}

/// Descending by semantic-version precedence: every later entry is below or
/// equal to every earlier one.
pub open spec fn sorted_desc(v: Seq<Seq<char>>) -> bool {
    forall|i: int, j: int| 0 <= i < j < v.len() ==> semver_le(#[trigger] v[j], #[trigger] v[i])
}

/// Index of the first already-sorted entry that is at or below `s`; the
/// insertion point that keeps the vector descending.
fn find_insert_pos(out: &Vec<String>, s: &String) -> (pos: usize)
    requires
        semver_ok(s@),
        all_orderable(out.deep_view()),
    ensures
        pos <= out@.len(),
        forall|k: int| 0 <= k < pos ==> semver_le(s@, #[trigger] out.deep_view()[k]),
        pos < out@.len() ==> semver_le(out.deep_view()[pos as int], s@) && (forall|c: Seq<char>|
            #[trigger] semver_le(c, out.deep_view()[pos as int]) ==> semver_le(c, s@)),
{
    let n = out.len();
    let mut pos: usize = 0;
    while pos < n
        invariant
            0 <= pos <= n,
            n == out@.len(),
            semver_ok(s@),
            all_orderable(out.deep_view()),
            forall|k: int| 0 <= k < pos ==> semver_le(s@, #[trigger] out.deep_view()[k]),
        decreases n - pos,
    {
        assert(semver_ok(out.deep_view()[pos as int]));
        if semver_le_exec(&out[pos], s) {
            return pos;
        }
        pos = pos + 1;
    }
    pos
}

/// Inserts one parseable version string into a vector that is sorted
/// descending, keeping it sorted; the contents grow by exactly that string.
fn insert_sorted_desc(out: &mut Vec<String>, s: String)
    requires
        semver_ok(s@),
        all_orderable(old(out).deep_view()),
        sorted_desc(old(out).deep_view()),
    ensures
        all_orderable(final(out).deep_view()),
        sorted_desc(final(out).deep_view()),
        final(out).deep_view().to_multiset() == old(out).deep_view().to_multiset().insert(s@),
{
    let ghost pre = *out;
    let ghost odv = out.deep_view();
    let ghost sv = s@;
    let pos = find_insert_pos(out, &s);
    out.insert(pos, s);
    proof {
        lemma_deep_view_insert(pre, *out, s, pos as int);
        let ndv = out.deep_view();
        odv.insert_ensures(pos as int, sv);
        vstd::seq_lib::to_multiset_insert(odv, pos as int, sv);
        assert forall|i: int, j: int| 0 <= i < j < ndv.len() implies semver_le(
            #[trigger] ndv[j],
            #[trigger] ndv[i],
        ) by {
            if j < pos {
                assert(semver_le(odv[j], odv[i]));
            } else if j == pos {
                assert(ndv[j] == sv);
                assert(semver_le(sv, odv[i]));
            } else {
                // j > pos, so ndv[j] == odv[j - 1] with j - 1 >= pos
                if i < pos {
                    if j - 1 == pos {
                        assert(semver_le(odv[pos as int], sv));
                        assert(semver_le(sv, odv[i]));
                        assert(semver_le(odv[j - 1], odv[i])) by {
                            assert(semver_le(odv[j - 1], sv));
                        }
                    } else {
                        assert(semver_le(odv[j - 1], odv[i]));
                    }
                } else if i == pos {
                    // goal: semver_le(odv[j - 1], sv)
                    if j - 1 == pos {
                        assert(semver_le(odv[pos as int], sv));
                    } else {
                        assert(semver_le(odv[j - 1], odv[pos as int]));
                        assert(semver_le(odv[j - 1], sv));
                    }
                } else {
                    assert(semver_le(odv[j - 1], odv[i - 1]));
                }
            }
        }
        assert forall|k: int| 0 <= k < ndv.len() implies semver_ok(#[trigger] ndv[k]) by {
            if k < pos {
                assert(semver_ok(odv[k]));
            } else if k > pos {
                assert(semver_ok(odv[k - 1]));
            }
        }
    }
}

/// Partitions version directory names into those that parse as semantic
/// versions and those that do not, and orders the parseable ones greatest
/// first by semantic-version precedence. The opaque side keeps its input
/// order; the orderable side is a permutation of the parseable inputs.
pub fn semver_greatest_first(vec: Vec<String>) -> (r: (Vec<String>, Vec<String>))
    ensures
        r.0.deep_view().to_multiset() == vec.deep_view().filter(is_orderable_fn()).to_multiset(),
        r.1.deep_view() == vec.deep_view().filter(is_opaque_fn()),
        all_orderable(r.0.deep_view()),
        sorted_desc(r.0.deep_view()),
{
    let ghost vdv = vec.deep_view();
    let n = vec.len();
    let mut plain: Vec<String> = Vec::new();
    let mut opaque: Vec<String> = Vec::new();
    let mut idx: usize = 0;
    while idx < n
        invariant
            0 <= idx <= n,
            n == vec@.len(),
            vdv == vec.deep_view(),
            plain.deep_view() == vdv.subrange(0, idx as int).filter(is_orderable_fn()),
            opaque.deep_view() == vdv.subrange(0, idx as int).filter(is_opaque_fn()),
        decreases n - idx,
    {
        let s = vec[idx].clone();
        assert(s@ == vdv[idx as int]);
        let ghost prefix = vdv.subrange(0, idx as int);
        proof {
            assert(vdv.subrange(0, idx + 1) =~= prefix.push(vdv[idx as int]));
            lemma_filter_push(prefix, is_orderable_fn(), vdv[idx as int]);
            lemma_filter_push(prefix, is_opaque_fn(), vdv[idx as int]);
        }
        if semver_parses(&s) {
            let ghost before = plain;
            plain.push(s);
            proof {
                lemma_deep_view_push(before, plain, s);
            }
        } else {
            let ghost before = opaque;
            opaque.push(s);
            proof {
                lemma_deep_view_push(before, opaque, s);
            }
        }
        idx = idx + 1;
    }
    proof {
        assert(vdv.subrange(0, n as int) =~= vdv);
    }
    assert(plain.deep_view() == vdv.filter(is_orderable_fn()));
    assert forall|k: int| 0 <= k < plain.deep_view().len() implies semver_ok(
        #[trigger] plain.deep_view()[k],
    ) by {
        broadcast use vstd::seq_lib::group_filter_ensures;

        assert(is_orderable_fn()(vdv.filter(is_orderable_fn())[k]));
    }
    let m = plain.len();
    let mut sorted: Vec<String> = Vec::new();
    proof {
        assert(sorted.deep_view() =~= Seq::<Seq<char>>::empty());
        assert(plain.deep_view().subrange(0, 0) =~= Seq::<Seq<char>>::empty());
    }
    let mut k: usize = 0;
    while k < m
        invariant
            0 <= k <= m,
            m == plain@.len(),
            all_orderable(plain.deep_view()),
            all_orderable(sorted.deep_view()),
            sorted_desc(sorted.deep_view()),
            sorted.deep_view().to_multiset() == plain.deep_view().subrange(
                0,
                k as int,
            ).to_multiset(),
        decreases m - k,
    {
        let s = plain[k].clone();
        assert(s@ == plain.deep_view()[k as int]);
        assert(semver_ok(s@));
        let ghost sdv = sorted.deep_view();
        insert_sorted_desc(&mut sorted, s);
        proof {
            let pdv = plain.deep_view();
            assert(pdv.subrange(0, k + 1) =~= pdv.subrange(0, k as int).push(pdv[k as int]));
            broadcast use vstd::seq_lib::group_to_multiset_ensures;

            assert(pdv.subrange(0, k as int).push(pdv[k as int]).to_multiset() == pdv.subrange(
                0,
                k as int,
            ).to_multiset().insert(pdv[k as int]));
        }
        k = k + 1;
    }
    proof {
        assert(plain.deep_view().subrange(0, m as int) =~= plain.deep_view());
    }
    (sorted, opaque)
}

/// The representative version of one artifact: the greatest of the version
/// names that parse as semantic versions, or nothing when none parses (an
/// artifact whose versions are all opaque is excluded from the results).
pub fn resolve_latest(versions: Vec<String>) -> (r: Option<String>)
    ensures
        match r {
            Some(v) => semver_ok(v@) && versions.deep_view().contains(v@) && (forall|u: Seq<char>|
                versions.deep_view().contains(u) && semver_ok(u) ==> u == v@ || semver_le(u, v@)),
            None => forall|k: int|
                0 <= k < versions.deep_view().len() ==> !semver_ok(
                    #[trigger] versions.deep_view()[k],
                ),
        },
{
    let ghost vdv = versions.deep_view();
    let pair = semver_greatest_first(versions);
    let ordered = pair.0;
    let ghost osort = ordered.deep_view();
    let ghost filt = vdv.filter(is_orderable_fn());
    proof {
        broadcast use vstd::seq_lib::group_to_multiset_ensures;

    }
    if ordered.len() == 0 {
        proof {
            assert(osort.to_multiset().len() == 0);
            assert(filt.to_multiset().len() == 0);
            assert(filt.len() == 0);
            assert forall|k: int| 0 <= k < vdv.len() implies !semver_ok(#[trigger] vdv[k]) by {
                broadcast use vstd::seq_lib::group_filter_ensures;

                if semver_ok(vdv[k]) {
                    assert(is_orderable_fn()(vdv[k]));
                    assert(filt.contains(vdv[k]));
                }
            }
        }
        None
    } else {
        let v = ordered[0].clone();
        proof {
            assert(v@ == osort[0]);
            broadcast use vstd::seq_lib::group_filter_ensures;

            assert(osort.to_multiset().contains(osort[0]));
            assert(filt.to_multiset().contains(v@));
            assert(filt.contains(v@));
            crate::strutil::lemma_filter_contains_original(vdv, is_orderable_fn(), v@);
            assert(vdv.contains(v@));
            assert forall|u: Seq<char>| vdv.contains(u) && semver_ok(u) implies u == v@
                || semver_le(u, v@) by {
                if u != v@ {
                    assert(is_orderable_fn()(u));
                    let w0 = choose|w0: int| 0 <= w0 < vdv.len() && vdv[w0] == u;
                    assert(filt.contains(vdv[w0]));
                    assert(filt.to_multiset().contains(u));
                    assert(osort.to_multiset().contains(u));
                    assert(osort.contains(u));
                    let w = choose|w: int| 0 <= w < osort.len() && osort[w] == u;
                    assert(w != 0);
                    assert(semver_le(osort[w], osort[0]));
                }
            }
        }
        Some(v)
    }
}

// ---------------------------------------------------------------------------
// Law: on distinct inputs the orderable side is strictly descending.
// ---------------------------------------------------------------------------

/// The orderable/opaque partition is exhaustive and disjoint by construction
/// (the two sides are the two complementary filters of the input); this law
/// adds that, when the input names are distinct — version directory names
/// under one artifact always are — the orderable side is *strictly*
/// descending: each later entry is below and never equal to an earlier one.
pub proof fn lemma_orderable_strictly_descending(input: Seq<Seq<char>>, ordered: Seq<Seq<char>>)
    requires
        input.no_duplicates(),
        ordered.to_multiset() == input.filter(is_orderable_fn()).to_multiset(),
        sorted_desc(ordered),
    ensures
        forall|i: int, j: int|
            0 <= i < j < ordered.len() ==> semver_le(#[trigger] ordered[j], #[trigger] ordered[i])
                && ordered[j] != ordered[i],
{
    lemma_filter_no_duplicates(input, is_orderable_fn());
    input.filter(is_orderable_fn()).lemma_multiset_has_no_duplicates();
    ordered.lemma_multiset_has_no_duplicates_conv();
    assert forall|i: int, j: int| 0 <= i < j < ordered.len() implies semver_le(
        #[trigger] ordered[j],
        #[trigger] ordered[i],
    ) && ordered[j] != ordered[i] by {
        assert(semver_le(ordered[j], ordered[i]));
    }
}

/// Filtering a duplicate-free sequence yields a duplicate-free sequence.
pub proof fn lemma_filter_no_duplicates<A>(s: Seq<A>, p: spec_fn(A) -> bool)
    requires
        s.no_duplicates(),
    ensures
        s.filter(p).no_duplicates(),
    decreases s.len(),
{
    reveal(Seq::filter);
    if s.len() > 0 {
        let prefix = s.drop_last();
        assert(prefix.no_duplicates());
        lemma_filter_no_duplicates(prefix, p);
        if p(s.last()) {
            assert(!prefix.contains(s.last())) by {
                if prefix.contains(s.last()) {
                    let w = choose|w: int| 0 <= w < prefix.len() && prefix[w] == s.last();
                    assert(s[w] == s[s.len() - 1]);
                }
            }
            assert(!prefix.filter(p).contains(s.last())) by {
                if prefix.filter(p).contains(s.last()) {
                    crate::strutil::lemma_filter_contains_original(prefix, p, s.last());
                }
            }
            assert(s.filter(p) == prefix.filter(p).push(s.last()));
        }
    }
}

} // verus!
