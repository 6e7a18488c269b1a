use vstd::prelude::*;

verus! {

// ---------------------------------------------------------------------------
// Lexicographic order on character sequences (by Unicode scalar value).
// ---------------------------------------------------------------------------

pub open spec fn seq_char_lt(a: Seq<char>, b: Seq<char>) -> bool
    decreases a.len(),
{
    if b.len() == 0 {
        false
    } else if a.len() == 0 {
        true
    } else if (a[0] as u32) < (b[0] as u32) {
        true
    } else if a[0] == b[0] {
        seq_char_lt(a.drop_first(), b.drop_first())
    } else {
        false
    }
}

pub open spec fn seq_char_le(a: Seq<char>, b: Seq<char>) -> bool {
    seq_char_lt(a, b) || a == b
}

pub proof fn lemma_seq_char_lt_asym(a: Seq<char>, b: Seq<char>)
    ensures
        !(seq_char_lt(a, b) && seq_char_lt(b, a)),
    decreases a.len(),
{
    if a.len() > 0 && b.len() > 0 && a[0] == b[0] {
        lemma_seq_char_lt_asym(a.drop_first(), b.drop_first());
    }
}

pub proof fn lemma_seq_char_lt_trans(a: Seq<char>, b: Seq<char>, c: Seq<char>)
    requires
        seq_char_lt(a, b),
        seq_char_lt(b, c),
    ensures
        seq_char_lt(a, c),
    decreases a.len(),
{
    if a.len() > 0 {
        if a[0] == b[0] && b[0] == c[0] {
            lemma_seq_char_lt_trans(a.drop_first(), b.drop_first(), c.drop_first());
        }
    }
}

pub proof fn lemma_seq_char_lt_connected(a: Seq<char>, b: Seq<char>)
    requires
        a != b,
    ensures
        seq_char_lt(a, b) || seq_char_lt(b, a),
    decreases a.len(),
{
    if a.len() == 0 {
        assert(b.len() > 0) by {
            if b.len() == 0 {
                assert(a =~= b);
            }
        }
    } else if b.len() == 0 {
    } else if a[0] == b[0] {
        assert(a.drop_first() != b.drop_first()) by {
            if a.drop_first() == b.drop_first() {
                assert(a.drop_first().len() == a.len() - 1);
                assert(b.drop_first().len() == b.len() - 1);
                assert forall|i: int| 0 <= i < a.len() implies a[i] == b[i] by {
                    if i > 0 {
                        assert(a.drop_first()[i - 1] == b.drop_first()[i - 1]);
                    }
                }
                assert(a =~= b);
            }
        }
        lemma_seq_char_lt_connected(a.drop_first(), b.drop_first());
    } else {
        assert((a[0] as u32) != (b[0] as u32)) by {
            if (a[0] as u32) == (b[0] as u32) {
                vstd::utf8::char_u32_cast(a[0], a[0] as u32);
                vstd::utf8::char_u32_cast(b[0], b[0] as u32);
            }
        }
    }
}

pub open spec fn seq_char_leq_fn() -> spec_fn(Seq<char>, Seq<char>) -> bool {
    |a: Seq<char>, b: Seq<char>| seq_char_le(a, b)
}

/// `seq_char_le` is a total order, so sorted sequences of strings are
/// canonical representatives of their multisets.
pub proof fn lemma_seq_char_le_total_ordering()
    ensures
        vstd::relations::total_ordering(seq_char_leq_fn()),
{
    let leq = seq_char_leq_fn();
    assert forall|x: Seq<char>| #[trigger] leq(x, x) by {}
    assert forall|x: Seq<char>, y: Seq<char>| #[trigger] leq(x, y) && #[trigger] leq(y, x)
        implies x == y by {
        if x != y {
            lemma_seq_char_lt_asym(x, y);
        }
    }
    assert forall|x: Seq<char>, y: Seq<char>, z: Seq<char>|
        #[trigger] leq(x, y) && #[trigger] leq(y, z) implies leq(x, z) by {
        if x != y && y != z {
            lemma_seq_char_lt_trans(x, y, z);
        }
    }
    assert forall|x: Seq<char>, y: Seq<char>| #[trigger] leq(x, y) || #[trigger] leq(y, x) by {
        if x != y {
            lemma_seq_char_lt_connected(x, y);
        }
    }
}

/// If two sequences agree on their first `i` characters, their order is
/// decided by the remainders.
pub proof fn lemma_seq_char_lt_common_prefix(a: Seq<char>, b: Seq<char>, i: int)
    requires
        0 <= i <= a.len(),
        i <= b.len(),
        forall|k: int| 0 <= k < i ==> (#[trigger] a[k]) == b[k],
    ensures
        seq_char_lt(a, b) == seq_char_lt(a.skip(i), b.skip(i)),
    decreases i,
{
    if i > 0 {
        assert(a[0] == b[0]);
        assert forall|k: int| 0 <= k < i - 1 implies (#[trigger] a.drop_first()[k])
            == b.drop_first()[k] by {
            assert(a[k + 1] == b[k + 1]);
        }
        lemma_seq_char_lt_common_prefix(a.drop_first(), b.drop_first(), i - 1);
        assert(a.skip(i) =~= a.drop_first().skip(i - 1));
        assert(b.skip(i) =~= b.drop_first().skip(i - 1));
    } else {
        assert(a.skip(0) =~= a);
        assert(b.skip(0) =~= b);
    }
}

// ---------------------------------------------------------------------------
// Helper lemmas on sequences and views.
// ---------------------------------------------------------------------------

/// Filtering distributes over appending one element at the end.
pub proof fn lemma_filter_push<A>(s: Seq<A>, p: spec_fn(A) -> bool, e: A)
    ensures
        s.push(e).filter(p) == (if p(e) {
            s.filter(p).push(e)
        } else {
            s.filter(p)
        }),
{
    reveal(Seq::filter);
    assert(s.push(e).drop_last() =~= s);
    assert(s.push(e).last() == e);
}

/// Mapping distributes over appending one element at the end.
pub proof fn lemma_map_values_push<A, B>(s: Seq<A>, f: spec_fn(A) -> B, e: A)
    ensures
        s.push(e).map_values(f) == s.map_values(f).push(f(e)),
{
    assert(s.push(e).map_values(f) =~= s.map_values(f).push(f(e)));
}

/// Every element of a filtered sequence comes from the original sequence.
pub proof fn lemma_filter_contains_original<A>(s: Seq<A>, p: spec_fn(A) -> bool, x: A)
    requires
        s.filter(p).contains(x),
    ensures
        s.contains(x),
        p(x),
    decreases s.len(),
{
    reveal(Seq::filter);
    if s.len() > 0 {
        let prefix = s.drop_last();
        if p(s.last()) && x == s.last() {
            assert(s[s.len() - 1] == x);
        } else {
            assert(prefix.filter(p).contains(x)) by {
                let f = s.filter(p);
                let w = choose|w: int| 0 <= w < f.len() && f[w] == x;
                if p(s.last()) {
                    assert(f == prefix.filter(p).push(s.last()));
                    assert(w < f.len() - 1);
                    assert(prefix.filter(p)[w] == x);
                } else {
                    assert(f == prefix.filter(p));
                }
            }
            lemma_filter_contains_original(prefix, p, x);
            let w = choose|w: int| 0 <= w < prefix.len() && prefix[w] == x;
            assert(s[w] == x);
        }
    }
}

/// Pushing an element onto a vector pushes its view onto the deep view.
pub proof fn lemma_deep_view_push<T: DeepView>(v: Vec<T>, w: Vec<T>, x: T)
    requires
        w@ == v@.push(x),
    ensures
        w.deep_view() == v.deep_view().push(x.deep_view()),
{
    assert(w.deep_view() =~= v.deep_view().push(x.deep_view()));
}

/// Inserting an element into a vector inserts its view into the deep view.
pub proof fn lemma_deep_view_insert<T: DeepView>(v: Vec<T>, w: Vec<T>, x: T, pos: int)
    requires
        0 <= pos <= v@.len(),
        w@ == v@.insert(pos, x),
    ensures
        w.deep_view() == v.deep_view().insert(pos, x.deep_view()),
{
    v@.insert_ensures(pos, x);
    v.deep_view().insert_ensures(pos, x.deep_view());
    assert(w.deep_view() =~= v.deep_view().insert(pos, x.deep_view()));
}

/// Removing an element from a vector removes its view from the deep view.
pub proof fn lemma_deep_view_remove<T: DeepView>(v: Vec<T>, w: Vec<T>, pos: int)
    requires
        0 <= pos < v@.len(),
        w@ == v@.remove(pos),
    ensures
        w.deep_view() == v.deep_view().remove(pos),
{
    v@.remove_ensures(pos);
    v.deep_view().remove_ensures(pos);
    assert(w.deep_view() =~= v.deep_view().remove(pos));
}

// ---------------------------------------------------------------------------
// Executable string operations, specified over `Seq<char>` views.
// ---------------------------------------------------------------------------

/// Relies on alloc's `String::push`: appends one character to the string.
pub assume_specification[ String::push ](s: &mut String, c: char)
    ensures
        final(s)@ == old(s)@.push(c),
;

/// Lexicographic comparison of two strings by Unicode scalar value.
pub fn str_le(a: &str, b: &str) -> (r: bool)
    ensures
        r == seq_char_le(a@, b@),
{
    let alen = a.unicode_len();
    let blen = b.unicode_len();
    let mut i: usize = 0;
    while i < alen && i < blen
        invariant
            0 <= i <= alen,
            i <= blen,
            alen == a@.len(),
            blen == b@.len(),
            forall|k: int| 0 <= k < i ==> (#[trigger] a@[k]) == b@[k],
        decreases alen - i,
    {
        let ca = a.get_char(i);
        let cb = b.get_char(i);
        if ca == cb {
            i = i + 1;
        } else if (ca as u32) < (cb as u32) {
            proof {
                lemma_seq_char_lt_common_prefix(a@, b@, i as int);
                assert(a@.skip(i as int)[0] == ca);
                assert(b@.skip(i as int)[0] == cb);
            }
            return true;
        } else {
            proof {
                lemma_seq_char_lt_common_prefix(a@, b@, i as int);
                assert(a@.skip(i as int)[0] == ca);
                assert(b@.skip(i as int)[0] == cb);
                assert(a@ != b@) by {
                    if a@ == b@ {
                        assert(a@[i as int] == b@[i as int]);
                    }
                }
            }
            return false;
        }
    }
    proof {
        lemma_seq_char_lt_common_prefix(a@, b@, i as int);
    }
    if alen == blen {
        proof {
            assert(a@ =~= b@);
        }
        true
    } else if alen < blen {
        proof {
            assert(a@.skip(i as int).len() == 0);
            assert(b@.skip(i as int).len() > 0);
        }
        true
    } else {
        proof {
            assert(b@.skip(i as int).len() == 0);
            assert(a@.skip(i as int).len() > 0);
            assert(a@ != b@) by {
                if a@ == b@ {
                    assert(a@.len() == b@.len());
                }
            }
        }
        false
    }
}

/// Strict lexicographic comparison of two strings.
pub fn str_lt(a: &str, b: &str) -> (r: bool)
    ensures
        r == seq_char_lt(a@, b@),
{
    let ab = str_le(a, b);
    if !ab {
        return false;
    }
    let ba = str_le(b, a);
    if ba {
        proof {
            lemma_seq_char_lt_asym(a@, b@);
        }
        false
    } else {
        true
    }
}

pub open spec fn is_suffix_of(suffix: Seq<char>, s: Seq<char>) -> bool {
    suffix.len() <= s.len() && s.skip(s.len() - suffix.len()) == suffix
}

pub fn str_ends_with(s: &str, suffix: &str) -> (r: bool)
    ensures
        r == is_suffix_of(suffix@, s@),
{
    let slen = s.unicode_len();
    let flen = suffix.unicode_len();
    if slen < flen {
        return false;
    }
    let off = slen - flen;
    let mut j: usize = 0;
    while j < flen
        invariant
            0 <= j <= flen,
            flen <= slen,
            off == slen - flen,
            slen == s@.len(),
            flen == suffix@.len(),
            forall|k: int| 0 <= k < j ==> (#[trigger] suffix@[k]) == s@[off + k],
        decreases flen - j,
    {
        let cs = s.get_char(off + j);
        let cf = suffix.get_char(j);
        if cs != cf {
            proof {
                assert(s@.skip(off as int)[j as int] != suffix@[j as int]);
            }
            return false;
        }
        j = j + 1;
    }
    proof {
        assert forall|k: int| 0 <= k < flen implies s@.skip(off as int)[k]
            == (#[trigger] suffix@[k]) by {
            assert(suffix@[k] == s@[off + k]);
        }
        assert(s@.skip(off as int) =~= suffix@);
    }
    true
}

pub fn str_contains_char(s: &str, c: char) -> (r: bool)
    ensures
        r == s@.contains(c),
{
    let slen = s.unicode_len();
    let mut i: usize = 0;
    while i < slen
        invariant
            0 <= i <= slen,
            slen == s@.len(),
            forall|k: int| 0 <= k < i ==> (#[trigger] s@[k]) != c,
        decreases slen - i,
    {
        if s.get_char(i) == c {
            proof {
                assert(s@[i as int] == c);
            }
            return true;
        }
        i = i + 1;
    }
    proof {
        assert(!s@.contains(c)) by {
            if s@.contains(c) {
                let w = choose|w: int| 0 <= w < s@.len() && s@[w] == c;
                assert(s@[w] != c);
            }
        }
    }
    false
}

/// Replaces every occurrence of `from` with `to`, character by character.
pub fn replace_char(s: &str, from: char, to: char) -> (r: String)
    ensures
        r@ == s@.map_values(|c: char| if c == from { to } else { c }),
{
    let slen = s.unicode_len();
    let mut out = String::new();
    let mut i: usize = 0;
    while i < slen
        invariant
            0 <= i <= slen,
            slen == s@.len(),
            out@.len() == i,
            forall|k: int| 0 <= k < i ==> (#[trigger] out@[k])
                == (if s@[k] == from { to } else { s@[k] }),
        decreases slen - i,
    {
        let c = s.get_char(i);
        if c == from {
            out.push(to);
        } else {
            out.push(c);
        }
        i = i + 1;
    }
    proof {
        assert(out@ =~= s@.map_values(|c: char| if c == from { to } else { c }));
    }
    out
}

} // verus!
