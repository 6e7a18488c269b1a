use vstd::prelude::*;

use crate::coord::{
    find_from, lemma_find_from_exact, lemma_find_from_found, lemma_find_from_in_range,
    lemma_find_from_none, Coordinate,
};
use crate::strutil::{is_suffix_of, str_ends_with};
use crate::versions::{resolve_latest, semver_le, semver_ok};

verus! {

use vstd::string::StringExecFns;

// ---------------------------------------------------------------------------
// Discovered artifacts.
// ---------------------------------------------------------------------------

/// The mathematical value of a `GroupArtifact`.
#[verifier::ext_equal]
pub struct GroupArtifactView {
    pub group: Seq<char>,
    pub name: Seq<char>,
    pub path: Seq<char>,
}

/// One artifact found in the cache: its group, its name, and the directory
/// that holds its version subdirectories.
#[derive(Debug)]
pub struct GroupArtifact {
    pub group: String,
    pub name: String,
    pub path: String,
}

impl View for GroupArtifact {
    type V = GroupArtifactView;

    open spec fn view(&self) -> GroupArtifactView {
        GroupArtifactView { group: self.group@, name: self.name@, path: self.path@ }
    }
}

// ---------------------------------------------------------------------------
// Recognizing archive files.
// ---------------------------------------------------------------------------

pub open spec fn jar_suffix() -> Seq<char> {
    seq!['.', 'j', 'a', 'r']
}

pub open spec fn sources_suffix() -> Seq<char> {
    seq!['-', 's', 'o', 'u', 'r', 'c', 'e', 's', '.', 'j', 'a', 'r']
}

/// An archive file name: ends in the archive suffix but is not the sources
/// variant.
pub open spec fn is_jar_name(s: Seq<char>) -> bool {
    is_suffix_of(jar_suffix(), s) && !is_suffix_of(sources_suffix(), s)
}

/// Decides `is_jar_name` on a file name.
pub fn is_jar(name: &str) -> (r: bool)
    ensures
        r == is_jar_name(name@),
{
    proof {
        reveal_strlit(".jar");
        reveal_strlit("-sources.jar");
        assert(".jar"@ =~= jar_suffix());
        assert("-sources.jar"@ =~= sources_suffix());
    }
    let plain = str_ends_with(name, ".jar");
    if !plain {
        return false;
    }
    let sources = str_ends_with(name, "-sources.jar");
    !sources
}

/// The file-name part of a path: what follows the last separator, or the
/// whole path when it has none.
pub open spec fn rfind_from(s: Seq<char>, c: char, from: int) -> Option<int>
    decreases from + 1,
{
    if from < 0 || from >= s.len() {
        None
    } else if s[from] == c {
        Some(from)
    } else {
        rfind_from(s, c, from - 1)
    }
}

pub open spec fn last_segment(p: Seq<char>) -> Seq<char> {
    match rfind_from(p, '/', p.len() - 1) {
        None => p,
        Some(i) => p.skip(i + 1),
    }
}

proof fn lemma_rfind_from_exact(s: Seq<char>, c: char, from: int, i: int)
    requires
        0 <= i <= from < s.len(),
        s[i] == c,
        forall|k: int| i < k <= from ==> (#[trigger] s[k]) != c,
    ensures
        rfind_from(s, c, from) == Some(i),
    decreases from - i,
{
    if i < from {
        lemma_rfind_from_exact(s, c, from - 1, i);
    }
}

proof fn lemma_rfind_from_none(s: Seq<char>, c: char, from: int)
    requires
        from < s.len(),
        forall|k: int| 0 <= k <= from ==> (#[trigger] s[k]) != c,
    ensures
        rfind_from(s, c, from) is None,
    decreases from + 1,
{
    if from >= 0 {
        lemma_rfind_from_none(s, c, from - 1);
    }
}

/// The file-name part of a path.
pub fn file_name_of(p: &str) -> (r: String)
    ensures
        r@ == last_segment(p@),
{
    let n = p.unicode_len();
    let mut j: usize = n;
    while j > 0
        invariant
            0 <= j <= n,
            n == p@.len(),
            forall|k: int| j <= k < n ==> (#[trigger] p@[k]) != '/',
        decreases j,
    {
        let c = p.get_char(j - 1);
        if c == '/' {
            proof {
                assert(p@[j - 1] == '/');
                lemma_rfind_from_exact(p@, '/', n as int - 1, j as int - 1);
            }
            let tail = p.substring_char(j, n);
            let r = tail.to_owned();
            proof {
                assert(r@ =~= p@.skip(j as int));
            }
            return r;
        }
        proof {
            assert(p@[j - 1] != '/');
        }
        j = j - 1;
    }
    proof {
        if n > 0 {
            lemma_rfind_from_none(p@, '/', n as int - 1);
        }
        assert(last_segment(p@) == p@);
    }
    p.to_owned()
}

/// The first file, in the walk's order, whose name is an archive and not the
/// sources variant. A directory with no such file (a metadata-only artifact)
/// is a normal outcome, not an error.
pub fn first_jar(paths: &Vec<String>) -> (r: Option<String>)
    ensures
        match r {
            Some(p) => exists|i: int|
                0 <= i < paths.deep_view().len() && (#[trigger] paths.deep_view()[i]) == p@
                    && is_jar_name(last_segment(p@)) && (forall|k: int|
                    0 <= k < i ==> !is_jar_name(last_segment(#[trigger] paths.deep_view()[k]))),
            None => forall|k: int|
                0 <= k < paths.deep_view().len() ==> !is_jar_name(
                    last_segment(#[trigger] paths.deep_view()[k]),
                ),
        },
{
    let n = paths.len();
    let mut i: usize = 0;
    while i < n
        invariant
            0 <= i <= n,
            n == paths@.len(),
            forall|k: int|
                0 <= k < i ==> !is_jar_name(last_segment(#[trigger] paths.deep_view()[k])),
        decreases n - i,
    {
        let fname = file_name_of(paths[i].as_str());
        let hit = is_jar(fname.as_str());
        if hit {
            let p = paths[i].clone();
            proof {
                assert(paths.deep_view()[i as int] == p@);
                assert(is_jar_name(last_segment(p@)));
            }
            return Some(p);
        }
        i = i + 1;
    }
    None
}

// ---------------------------------------------------------------------------
// Interpreting crawled directories (group/artifact discovery).
// ---------------------------------------------------------------------------

/// The directory of an artifact that sits exactly two segments below the
/// cache root.
pub open spec fn artifact_path_of(root: Seq<char>, group: Seq<char>, name: Seq<char>) -> Seq<
    char,
> {
    root + seq!['/'] + group + seq!['/'] + name
}

/// Reads a crawled directory path back as (group, artifact name): accepted
/// exactly when the path is the root followed by two non-empty,
/// separator-free segments.
pub open spec fn parse_artifact_dir(root: Seq<char>, path: Seq<char>) -> Option<
    (Seq<char>, Seq<char>),
> {
    if path.len() <= root.len() || path.subrange(0, root.len() as int) != root || path[root.len() as int]
        != '/' {
        None
    } else {
        let rest = path.skip(root.len() as int + 1);
        match find_from(rest, '/', 0) {
            None => None,
            Some(i) => if find_from(rest, '/', i + 1) is Some {
                None
            } else if i == 0 || i == rest.len() - 1 {
                None
            } else {
                Some((rest.subrange(0, i), rest.skip(i + 1)))
            },
        }
    }
}

/// Interprets one directory discovered by the crawl. The two deepest path
/// segments become (group, artifact name), in that nesting order; a path
/// that does not sit exactly two segments below the root is not an artifact
/// directory.
pub fn group_artifact_from_path(root: &str, path: &str) -> (r: Option<GroupArtifact>)
    ensures
        match r {
            Some(ga) => parse_artifact_dir(root@, path@) == Some((ga@.group, ga@.name))
                && ga@.path == path@,
            None => parse_artifact_dir(root@, path@) is None,
        },
{
    let rl = root.unicode_len();
    let pl = path.unicode_len();
    if pl <= rl {
        return None;
    }
    // the root must be a literal prefix, followed by a separator
    let mut k: usize = 0;
    while k < rl
        invariant
            0 <= k <= rl,
            rl == root@.len(),
            rl < pl,
            pl == path@.len(),
            forall|w: int| 0 <= w < k ==> (#[trigger] path@[w]) == root@[w],
        decreases rl - k,
    {
        let cp = path.get_char(k);
        let cr = root.get_char(k);
        if cp != cr {
            proof {
                assert(path@.subrange(0, rl as int)[k as int] != root@[k as int]);
            }
            return None;
        }
        k = k + 1;
    }
    proof {
        assert(path@.subrange(0, rl as int) =~= root@);
    }
    if path.get_char(rl) != '/' {
        return None;
    }
    let ghost rest = path@.skip(rl as int + 1);
    let rest_len = pl - (rl + 1);
    // scan the remainder for separators
    let mut slashes: usize = 0;
    let mut q1: usize = 0;
    let mut i: usize = 0;
    while i < rest_len
        invariant
            0 <= i <= rest_len,
            rl + 1 + rest_len == pl,
            rl == root@.len(),
            pl == path@.len(),
            rest == path@.skip(rl as int + 1),
            rest.len() == rest_len,
            slashes <= 1,
            slashes == 0 ==> forall|w: int| 0 <= w < i ==> (#[trigger] rest[w]) != '/',
            slashes == 1 ==> q1 < i && rest[q1 as int] == '/' && (forall|w: int|
                0 <= w < i && w != q1 ==> (#[trigger] rest[w]) != '/'),
        decreases rest_len - i,
    {
        let c = path.get_char(rl + 1 + i);
        proof {
            assert(rest[i as int] == path@[rl + 1 + i]);
        }
        if c == '/' {
            if slashes == 1 {
                proof {
                    lemma_find_from_exact(rest, '/', 0, q1 as int);
                    assert forall|w: int| q1 < w < i implies (#[trigger] rest[w]) != '/' by {}
                    lemma_find_from_found(rest, '/', q1 as int + 1);
                }
                return None;
            }
            q1 = i;
            slashes = 1;
        }
        i = i + 1;
    }
    if slashes == 0 {
        proof {
            lemma_find_from_none(rest, '/', 0);
        }
        return None;
    }
    proof {
        lemma_find_from_exact(rest, '/', 0, q1 as int);
        assert forall|w: int| q1 as int + 1 <= w < rest.len() implies (#[trigger] rest[w])
            != '/' by {}
        lemma_find_from_none(rest, '/', q1 as int + 1);
    }
    if q1 == 0 || q1 == rest_len - 1 {
        return None;
    }
    let group = path.substring_char(rl + 1, rl + 1 + q1).to_owned();
    let name = path.substring_char(rl + 1 + q1 + 1, pl).to_owned();
    proof {
        assert(group@ =~= rest.subrange(0, q1 as int));
        assert(name@ =~= rest.skip(q1 as int + 1));
    }
    Some(GroupArtifact { group, name, path: path.to_owned() })
}

/// An accepted path is exactly two segments below the cache root: the root,
/// then the group, then the artifact name, each further segment non-empty
/// and free of separators.
pub proof fn lemma_artifact_two_segments(
    root: Seq<char>,
    path: Seq<char>,
    group: Seq<char>,
    name: Seq<char>,
)
    requires
        parse_artifact_dir(root, path) == Some((group, name)),
    ensures
        path == artifact_path_of(root, group, name),
        group.len() > 0,
        name.len() > 0,
        !group.contains('/'),
        !name.contains('/'),
{
    let rest = path.skip(root.len() as int + 1);
    let i = find_from(rest, '/', 0).unwrap();
    lemma_find_from_in_range(rest, '/', 0);
    assert(group == rest.subrange(0, i));
    assert(name == rest.skip(i + 1));
    assert(!group.contains('/')) by {
        crate::coord::lemma_find_from_exact_converse(rest, '/', 0, i);
        if group.contains('/') {
            let w = choose|w: int| 0 <= w < group.len() && group[w] == '/';
            assert(rest[w] == '/');
        }
    }
    assert(!name.contains('/')) by {
        crate::coord::lemma_find_from_none_converse(rest, '/', i + 1);
        if name.contains('/') {
            let w = choose|w: int| 0 <= w < name.len() && name[w] == '/';
            assert(rest[w + i + 1] == '/');
        }
    }
    assert(path =~= artifact_path_of(root, group, name));
}

/// Rendering an artifact directory from its parts and reading it back
/// reconstructs exactly the parts.
pub proof fn lemma_artifact_dir_round_trip(root: Seq<char>, group: Seq<char>, name: Seq<char>)
    requires
        group.len() > 0,
        name.len() > 0,
        !group.contains('/'),
        !name.contains('/'),
    ensures
        parse_artifact_dir(root, artifact_path_of(root, group, name)) == Some((group, name)),
{
    let path = artifact_path_of(root, group, name);
    let rl = root.len() as int;
    assert(path.len() == rl + 1 + group.len() + 1 + name.len());
    assert(path.subrange(0, rl) =~= root);
    assert(path[rl] == '/');
    let rest = path.skip(rl + 1);
    assert(rest =~= group + seq!['/'] + name);
    let gl = group.len() as int;
    assert forall|w: int| 0 <= w < gl implies (#[trigger] rest[w]) != '/' by {
        assert(rest[w] == group[w]);
        if rest[w] == '/' {
            assert(group.contains('/'));
        }
    }
    assert(rest[gl] == '/');
    assert forall|w: int| gl < w < rest.len() implies (#[trigger] rest[w]) != '/' by {
        assert(rest[w] == name[w - gl - 1]);
        if rest[w] == '/' {
            assert(name.contains('/'));
        }
    }
    lemma_find_from_exact(rest, '/', 0, gl);
    lemma_find_from_none(rest, '/', gl + 1);
    assert(rest.subrange(0, gl) =~= group);
    assert(rest.skip(gl + 1) =~= name);
}

// ---------------------------------------------------------------------------
// Version resolution per artifact.
// ---------------------------------------------------------------------------

/// The path of one version directory under an artifact's directory.
pub open spec fn version_dir_of(ga: GroupArtifactView, version: Seq<char>) -> Seq<char> {
    ga.path + seq!['/'] + version
}

/// The directory that holds one version of an artifact.
pub fn version_dir_path(ga: &GroupArtifact, version: &str) -> (r: String)
    ensures
        r@ == version_dir_of(ga@, version@),
{
    let mut out = ga.path.clone();
    out.push('/');
    out.append(version);
    proof {
        assert(out@ =~= version_dir_of(ga@, version@));
    }
    out
}

/// The coordinate an artifact contributes: its group and name paired with
/// the greatest orderable version among its version directory names; no
/// coordinate when every version name is opaque (such artifacts are
/// excluded).
pub fn resolve_artifact(ga: &GroupArtifact, versions: Vec<String>) -> (r: Option<Coordinate>)
    ensures
        match r {
            Some(c) => c@.group == ga@.group && c@.name == ga@.name && semver_ok(c@.version)
                && versions.deep_view().contains(c@.version) && (forall|u: Seq<char>|
                versions.deep_view().contains(u) && semver_ok(u) ==> u == c@.version || semver_le(
                    u,
                    c@.version,
                )),
            None => forall|k: int|
                0 <= k < versions.deep_view().len() ==> !semver_ok(
                    #[trigger] versions.deep_view()[k],
                ),
        },
{
    match resolve_latest(versions) {
        Some(v) => Some(Coordinate::new(ga.group.clone(), ga.name.clone(), v)),
        None => None,
    }
}

} // verus!
