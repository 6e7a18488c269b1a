use vstd::prelude::*;

use crate::strutil::{seq_char_le, seq_char_lt, str_le};
use crate::strutil::{lemma_seq_char_lt_asym, lemma_seq_char_lt_connected, lemma_seq_char_lt_trans};

verus! {

use vstd::string::StringExecFns;

// ---------------------------------------------------------------------------
// Coordinates: group/artifact-name/version triples.
// ---------------------------------------------------------------------------

/// The mathematical value of a `Coordinate`: three character sequences.
#[verifier::ext_equal]
pub struct CoordView {
    pub group: Seq<char>,
    pub name: Seq<char>,
    pub version: Seq<char>,
}

/// A (group, artifact name, version) triple identifying one build artifact in
/// the dependency cache. Canonical string form: `"<group>:<name>:<version>"`.
#[derive(Debug)]
pub struct Coordinate {
    pub group: String,
    pub name: String,
    pub version: String,
}

impl View for Coordinate {
    type V = CoordView;

    open spec fn view(&self) -> CoordView {
        CoordView { group: self.group@, name: self.name@, version: self.version@ }
    }
}

impl DeepView for Coordinate {
    type V = CoordView;

    open spec fn deep_view(&self) -> CoordView {
        self.view()
    }
}

impl Clone for Coordinate {
    fn clone(&self) -> (c: Coordinate)
        ensures
            c@ == self@,
    {
        Coordinate {
            group: self.group.clone(),
            name: self.name.clone(),
            version: self.version.clone(),
        }
    }
}

impl PartialEq for Coordinate {
    fn eq(&self, other: &Coordinate) -> (r: bool) {
        self.group == other.group && self.name == other.name && self.version == other.version
    }
}

impl vstd::std_specs::cmp::PartialEqSpecImpl for Coordinate {
    open spec fn obeys_eq_spec() -> bool {
        true
    }

    open spec fn eq_spec(&self, other: &Coordinate) -> bool {
        self@ == other@
    }
}

impl Eq for Coordinate {

}

impl Coordinate {
    pub fn new(group: String, name: String, version: String) -> (c: Coordinate)
        ensures
            c@ == (CoordView { group: group@, name: name@, version: version@ }),
    {
        Coordinate { group, name, version }
    }
}

// ---------------------------------------------------------------------------
// Total order on coordinates: (group, name, version), each lexicographic.
// ---------------------------------------------------------------------------

pub open spec fn coord_le(a: CoordView, b: CoordView) -> bool {
    if a.group != b.group {
        seq_char_lt(a.group, b.group)
    } else if a.name != b.name {
        seq_char_lt(a.name, b.name)
    } else {
        seq_char_le(a.version, b.version)
    }
}

pub open spec fn coord_leq_fn() -> spec_fn(CoordView, CoordView) -> bool {
    |a: CoordView, b: CoordView| coord_le(a, b)
}

/// `coord_le` is a total order, so a sorted coordinate list is a canonical
/// representative of its multiset.
pub proof fn lemma_coord_le_total_ordering()
    ensures
        vstd::relations::total_ordering(coord_leq_fn()),
{
    let leq = coord_leq_fn();
    assert forall|x: CoordView| #[trigger] leq(x, x) by {}
    assert forall|x: CoordView, y: CoordView| #[trigger] leq(x, y) && #[trigger] leq(y, x)
        implies x == y by {
        lemma_coord_le_antisym(x, y);
    }
    assert forall|x: CoordView, y: CoordView, z: CoordView|
        #[trigger] leq(x, y) && #[trigger] leq(y, z) implies leq(x, z) by {
        lemma_coord_le_trans(x, y, z);
    }
    assert forall|x: CoordView, y: CoordView| #[trigger] leq(x, y) || #[trigger] leq(y, x) by {
        lemma_coord_le_connected(x, y);
    }
}

pub proof fn lemma_coord_le_antisym(a: CoordView, b: CoordView)
    requires
        coord_le(a, b),
        coord_le(b, a),
    ensures
        a == b,
{
    if a.group != b.group {
        lemma_seq_char_lt_asym(a.group, b.group);
    } else if a.name != b.name {
        lemma_seq_char_lt_asym(a.name, b.name);
    } else {
        if a.version != b.version {
            lemma_seq_char_lt_asym(a.version, b.version);
        }
        assert(a =~= b);
    }
}

pub proof fn lemma_coord_le_trans(a: CoordView, b: CoordView, c: CoordView)
    requires
        coord_le(a, b),
        coord_le(b, c),
    ensures
        coord_le(a, c),
{
    if a.group != b.group && b.group != c.group {
        lemma_seq_char_lt_trans(a.group, b.group, c.group);
        if a.group == c.group {
            lemma_seq_char_lt_asym(a.group, b.group);
        }
    } else if a.group == b.group && b.group == c.group {
        if a.name != b.name && b.name != c.name {
            lemma_seq_char_lt_trans(a.name, b.name, c.name);
            if a.name == c.name {
                lemma_seq_char_lt_asym(a.name, b.name);
            }
        } else if a.name == b.name && b.name == c.name {
            if a.version != b.version && b.version != c.version {
                lemma_seq_char_lt_trans(a.version, b.version, c.version);
            }
        }
    }
}

pub proof fn lemma_coord_le_connected(a: CoordView, b: CoordView)
    ensures
        coord_le(a, b) || coord_le(b, a),
{
    if a.group != b.group {
        lemma_seq_char_lt_connected(a.group, b.group);
    } else if a.name != b.name {
        lemma_seq_char_lt_connected(a.name, b.name);
    } else if a.version != b.version {
        lemma_seq_char_lt_connected(a.version, b.version);
    }
}

/// Executable comparison deciding `coord_le` on the views.
pub fn coord_le_exec(a: &Coordinate, b: &Coordinate) -> (r: bool)
    ensures
        r == coord_le(a@, b@),
{
    if a.group == b.group {
        if a.name == b.name {
            str_le(a.version.as_str(), b.version.as_str())
        } else {
            let le = str_le(a.name.as_str(), b.name.as_str());
            le
        }
    } else {
        let le = str_le(a.group.as_str(), b.group.as_str());
        le
    }
}

// ---------------------------------------------------------------------------
// Canonical string form and its strict parser.
// ---------------------------------------------------------------------------

pub open spec fn canonical_of(c: CoordView) -> Seq<char> {
    c.group + seq![':'] + c.name + seq![':'] + c.version
}

/// First index at or after `from` holding `c`, if any.
pub open spec fn find_from(s: Seq<char>, c: char, from: int) -> Option<int>
    decreases s.len() - from,
{
    if from < 0 || from >= s.len() {
        None
    } else if s[from] == c {
        Some(from)
    } else {
        find_from(s, c, from + 1)
    }
}

/// Number of occurrences of `c` in `s` at or after index `from`.
pub open spec fn count_from(s: Seq<char>, c: char, from: int) -> nat
    decreases s.len() - from,
{
    if from < 0 || from >= s.len() {
        0
    } else if s[from] == c {
        1 + count_from(s, c, from + 1)
    } else {
        count_from(s, c, from + 1)
    }
}

pub open spec fn count_char(s: Seq<char>, c: char) -> nat {
    count_from(s, c, 0)
}

/// Strict interpretation of a canonical coordinate string: the string must
/// consist of exactly three fields separated by exactly two separators.
pub open spec fn parse_coord(s: Seq<char>) -> Option<CoordView> {
    match find_from(s, ':', 0) {
        None => None,
        Some(i) => match find_from(s, ':', i + 1) {
            None => None,
            Some(j) => if find_from(s, ':', j + 1) is Some {
                None
            } else {
                Some(
                    CoordView {
                        group: s.subrange(0, i),
                        name: s.subrange(i + 1, j),
                        version: s.subrange(j + 1, s.len() as int),
                    },
                )
            },
        },
    }
}

pub proof fn lemma_find_from_exact(s: Seq<char>, c: char, from: int, i: int)
    requires
        0 <= from <= i < s.len(),
        s[i] == c,
        forall|k: int| from <= k < i ==> (#[trigger] s[k]) != c,
    ensures
        find_from(s, c, from) == Some(i),
    decreases i - from,
{
    if from < i {
        lemma_find_from_exact(s, c, from + 1, i);
    }
}

pub proof fn lemma_find_from_none(s: Seq<char>, c: char, from: int)
    requires
        0 <= from,
        forall|k: int| from <= k < s.len() ==> (#[trigger] s[k]) != c,
    ensures
        find_from(s, c, from) is None,
    decreases s.len() - from,
{
    if from < s.len() {
        lemma_find_from_none(s, c, from + 1);
    }
}

pub proof fn lemma_find_from_found(s: Seq<char>, c: char, from: int)
    requires
        0 <= from,
        exists|k: int| from <= k < s.len() && (#[trigger] s[k]) == c,
    ensures
        find_from(s, c, from) is Some,
    decreases s.len() - from,
{
    let w = choose|k: int| from <= k < s.len() && (#[trigger] s[k]) == c;
    if s[from] != c {
        assert(from + 1 <= w);
        lemma_find_from_found(s, c, from + 1);
    }
}

/// A parse failure is described by the number of separators seen.
#[derive(Debug)]
pub enum CoordParseError {
    FieldCount { colons: usize },
}

impl Coordinate {
    /// The canonical `"<group>:<name>:<version>"` form of this coordinate.
    pub fn canonical_string(&self) -> (r: String)
        ensures
            r@ == canonical_of(self@),
    {
        let mut out = self.group.clone();
        out.push(':');
        out.append(self.name.as_str());
        out.push(':');
        out.append(self.version.as_str());
        proof {
            assert(out@ =~= canonical_of(self@));
        }
        out
    }

    /// Strict parser of the canonical form: the string must hold exactly
    /// three `:`-separated fields; anything else is rejected, with the
    /// separator count reported.
    pub fn parse(s: &str) -> (r: Result<Coordinate, CoordParseError>)
        ensures
            match r {
                Ok(c) => parse_coord(s@) == Some(c@),
                Err(e) => parse_coord(s@) is None && (match e {
                    CoordParseError::FieldCount { colons } => colons as nat == count_char(
                        s@,
                        ':',
                    ) && colons != 2,
                }),
            },
    {
        let slen = s.unicode_len();
        let mut colons: usize = 0;
        let mut q1: usize = 0;
        let mut q2: usize = 0;
        let mut i: usize = 0;
        while i < slen
            invariant
                0 <= i <= slen,
                slen == s@.len(),
                colons <= i,
                colons as nat + count_from(s@, ':', i as int) == count_char(s@, ':'),
                colons == 0 ==> forall|k: int| 0 <= k < i ==> (#[trigger] s@[k]) != ':',
                colons >= 1 ==> q1 < i && s@[q1 as int] == ':' && (forall|k: int|
                    0 <= k < q1 ==> (#[trigger] s@[k]) != ':'),
                colons == 1 ==> forall|k: int| q1 < k < i ==> (#[trigger] s@[k]) != ':',
                colons >= 2 ==> q1 < q2 < i && s@[q2 as int] == ':' && (forall|k: int|
                    q1 < k < q2 ==> (#[trigger] s@[k]) != ':'),
                colons == 2 ==> forall|k: int| q2 < k < i ==> (#[trigger] s@[k]) != ':',
                colons >= 3 ==> exists|k: int| q2 < k < i && (#[trigger] s@[k]) == ':',
            decreases slen - i,
        {
            let c = s.get_char(i);
            if c == ':' {
                if colons == 0 {
                    q1 = i;
                } else if colons == 1 {
                    q2 = i;
                }
                colons = colons + 1;
            }
            i = i + 1;
        }
        assert(count_from(s@, ':', slen as int) == 0);
        if colons == 2 {
            proof {
                lemma_find_from_exact(s@, ':', 0, q1 as int);
                lemma_find_from_exact(s@, ':', q1 as int + 1, q2 as int);
                lemma_find_from_none(s@, ':', q2 as int + 1);
            }
            let group = s.substring_char(0, q1).to_owned();
            let name = s.substring_char(q1 + 1, q2).to_owned();
            let version = s.substring_char(q2 + 1, slen).to_owned();
            Ok(Coordinate { group, name, version })
        } else {
            proof {
                if colons == 0 {
                    lemma_find_from_none(s@, ':', 0);
                } else if colons == 1 {
                    lemma_find_from_exact(s@, ':', 0, q1 as int);
                    lemma_find_from_none(s@, ':', q1 as int + 1);
                } else {
                    lemma_find_from_exact(s@, ':', 0, q1 as int);
                    lemma_find_from_exact(s@, ':', q1 as int + 1, q2 as int);
                    lemma_find_from_found(s@, ':', q2 as int + 1);
                }
            }
            Err(CoordParseError::FieldCount { colons })
        }
    }
}

// ---------------------------------------------------------------------------
// Round-trip laws for the canonical form.
// ---------------------------------------------------------------------------

/// Rendering a coordinate whose fields are free of the separator and parsing
/// the result reconstructs exactly the original triple.
pub proof fn lemma_coordinate_round_trip(v: CoordView)
    requires
        !v.group.contains(':'),
        !v.name.contains(':'),
        !v.version.contains(':'),
    ensures
        parse_coord(canonical_of(v)) == Some(v),
{
    let s = canonical_of(v);
    let gl = v.group.len() as int;
    let nl = v.name.len() as int;
    let vl = v.version.len() as int;
    assert(s.len() == gl + 1 + nl + 1 + vl);
    assert forall|k: int| 0 <= k < gl implies (#[trigger] s[k]) != ':' by {
        assert(s[k] == v.group[k]);
        if s[k] == ':' {
            assert(v.group[k] == ':');
            assert(v.group.contains(':'));
        }
    }
    assert(s[gl] == ':');
    assert forall|k: int| gl < k < gl + 1 + nl implies (#[trigger] s[k]) != ':' by {
        assert(s[k] == v.name[k - gl - 1]);
        if s[k] == ':' {
            assert(v.name[k - gl - 1] == ':');
            assert(v.name.contains(':'));
        }
    }
    assert(s[gl + 1 + nl] == ':');
    assert forall|k: int| gl + 1 + nl < k < s.len() implies (#[trigger] s[k]) != ':' by {
        assert(s[k] == v.version[k - gl - 2 - nl]);
        if s[k] == ':' {
            assert(v.version[k - gl - 2 - nl] == ':');
            assert(v.version.contains(':'));
        }
    }
    lemma_find_from_exact(s, ':', 0, gl);
    lemma_find_from_exact(s, ':', gl + 1, gl + 1 + nl);
    lemma_find_from_none(s, ':', gl + 1 + nl + 1);
    assert(s.subrange(0, gl) =~= v.group);
    assert(s.subrange(gl + 1, gl + 1 + nl) =~= v.name);
    assert(s.subrange(gl + 1 + nl + 1, s.len() as int) =~= v.version);
    assert(parse_coord(s) == Some(v)) by {
        assert(parse_coord(s).unwrap() =~= v);
    }
}

/// A parseable string is exactly the canonical form of its parse, so two
/// distinct canonical strings never parse to equal triples.
pub proof fn lemma_parse_reconstructs(s: Seq<char>, v: CoordView)
    requires
        parse_coord(s) == Some(v),
    ensures
        s == canonical_of(v),
{
    let i = find_from(s, ':', 0).unwrap();
    let j = find_from(s, ':', i + 1).unwrap();
    lemma_find_from_in_range(s, ':', 0);
    lemma_find_from_in_range(s, ':', i + 1);
    assert(s =~= canonical_of(v));
}

/// Two distinct strings never parse to the same coordinate.
pub proof fn lemma_parse_injective(s1: Seq<char>, s2: Seq<char>)
    requires
        parse_coord(s1) is Some,
        parse_coord(s1) == parse_coord(s2),
    ensures
        s1 == s2,
{
    let v = parse_coord(s1).unwrap();
    lemma_parse_reconstructs(s1, v);
    lemma_parse_reconstructs(s2, v);
}

/// What a successful search says of the skipped stretch: no occurrence
/// before the index found.
pub proof fn lemma_find_from_exact_converse(s: Seq<char>, c: char, from: int, i: int)
    requires
        0 <= from,
        find_from(s, c, from) == Some(i),
    ensures
        forall|k: int| from <= k < i ==> (#[trigger] s[k]) != c,
    decreases s.len() - from,
{
    if from < s.len() && s[from] != c {
        lemma_find_from_exact_converse(s, c, from + 1, i);
    }
}

/// What a failed search says: no occurrence at or after the start.
pub proof fn lemma_find_from_none_converse(s: Seq<char>, c: char, from: int)
    requires
        0 <= from,
        find_from(s, c, from) is None,
    ensures
        forall|k: int| from <= k < s.len() ==> (#[trigger] s[k]) != c,
    decreases s.len() - from,
{
    if from < s.len() {
        lemma_find_from_none_converse(s, c, from + 1);
    }
}

pub proof fn lemma_find_from_in_range(s: Seq<char>, c: char, from: int)
    requires
        0 <= from,
        find_from(s, c, from) is Some,
    ensures
        from <= find_from(s, c, from).unwrap() < s.len(),
        s[find_from(s, c, from).unwrap()] == c,
    decreases s.len() - from,
{
    if from < s.len() && s[from] != c {
        lemma_find_from_in_range(s, c, from + 1);
    }
}

} // verus!
