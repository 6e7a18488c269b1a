use vstd::prelude::*;

use crate::coord::{
    coord_le, coord_le_exec, coord_leq_fn, lemma_coord_le_connected, lemma_coord_le_total_ordering,
    lemma_coord_le_trans, Coordinate, CoordView,
};
use crate::strutil::{
    lemma_deep_view_insert, lemma_deep_view_push, lemma_deep_view_remove, seq_char_lt, str_lt,
};

verus! {

use vstd::relations::sorted_by;

// ---------------------------------------------------------------------------
// The index: class name -> ordered list of owning coordinates.
// ---------------------------------------------------------------------------

/// One observation from a scan: this archive (identified by its coordinate)
/// contains a class of this name.
pub struct ClassRecord {
    pub class: String,
    pub coord: Coordinate,
}

#[verifier::ext_equal]
pub struct RecordView {
    pub class: Seq<char>,
    pub coord: CoordView,
}

impl View for ClassRecord {
    type V = RecordView;

    open spec fn view(&self) -> RecordView {
        RecordView { class: self.class@, coord: self.coord@ }
    }
}

impl DeepView for ClassRecord {
    type V = RecordView;

    open spec fn deep_view(&self) -> RecordView {
        self.view()
    }
}

/// One index entry: a class name and the coordinates whose archives contain
/// a class of that exact name, kept sorted.
pub struct ClassEntry {
    pub class: String,
    pub coords: Vec<Coordinate>,
}

#[verifier::ext_equal]
pub struct EntryView {
    pub class: Seq<char>,
    pub coords: Seq<CoordView>,
}

impl View for ClassEntry {
    type V = EntryView;

    open spec fn view(&self) -> EntryView {
        EntryView { class: self.class@, coords: self.coords.deep_view() }
    }
}

impl DeepView for ClassEntry {
    type V = EntryView;

    open spec fn deep_view(&self) -> EntryView {
        self.view()
    }
}

/// The reverse index, immutable once built: entries in strictly ascending
/// class-name order, each with a non-empty sorted coordinate list.
pub struct Index {
    pub entries: Vec<ClassEntry>,
}

impl View for Index {
    type V = Seq<EntryView>;

    open spec fn view(&self) -> Seq<EntryView> {
        self.entries.deep_view()
    }
}

pub open spec fn entry_wf(e: EntryView) -> bool {
    e.coords.len() > 0 && sorted_by(e.coords, coord_leq_fn())
}

pub open spec fn index_wf(v: Seq<EntryView>) -> bool {
    &&& forall|i: int, j: int|
        0 <= i < j < v.len() ==> seq_char_lt(#[trigger] v[i].class, #[trigger] v[j].class)
    &&& forall|k: int| 0 <= k < v.len() ==> entry_wf(#[trigger] v[k])
}

// ---------------------------------------------------------------------------
// The model: what coordinates the index holds for each class.
// ---------------------------------------------------------------------------

/// The coordinate list the index associates with a class; empty when the
/// class is absent.
pub open spec fn coords_of(v: Seq<EntryView>, class: Seq<char>) -> Seq<CoordView>
    decreases v.len(),
{
    if v.len() == 0 {
        Seq::empty()
    } else if v[0].class == class {
        v[0].coords
    } else {
        coords_of(v.drop_first(), class)
    }
}

/// How many times the index maps `class` to `c`.
pub open spec fn index_count(v: Seq<EntryView>, class: Seq<char>, c: CoordView) -> nat {
    coords_of(v, class).to_multiset().count(c)
}

pub open spec fn has_class(v: Seq<EntryView>, class: Seq<char>) -> bool {
    exists|k: int| 0 <= k < v.len() && (#[trigger] v[k]).class == class
}

/// How many records pair `class` with `c`.
pub open spec fn record_count(rs: Seq<RecordView>, class: Seq<char>, c: CoordView) -> nat {
    rs.to_multiset().count(RecordView { class, coord: c })
}

pub proof fn lemma_coords_of_absent(v: Seq<EntryView>, class: Seq<char>)
    requires
        forall|k: int| 0 <= k < v.len() ==> (#[trigger] v[k]).class != class,
    ensures
        coords_of(v, class) == Seq::<CoordView>::empty(),
    decreases v.len(),
{
    if v.len() > 0 {
        assert(v[0].class != class);
        assert forall|k: int| 0 <= k < v.drop_first().len() implies (#[trigger] v.drop_first()[k]).class
            != class by {
            assert(v[k + 1].class != class);
        }
        lemma_coords_of_absent(v.drop_first(), class);
    }
}

pub proof fn lemma_coords_of_present(v: Seq<EntryView>, p: int)
    requires
        0 <= p < v.len(),
        forall|k: int| 0 <= k < p ==> (#[trigger] v[k]).class != v[p].class,
    ensures
        coords_of(v, v[p].class) == v[p].coords,
    decreases p,
{
    if p > 0 {
        assert(v[0].class != v[p].class);
        assert forall|k: int| 0 <= k < p - 1 implies (#[trigger] v.drop_first()[k]).class
            != v.drop_first()[p - 1].class by {
            assert(v[k + 1].class != v[p].class);
        }
        lemma_coords_of_present(v.drop_first(), p - 1);
        assert(v.drop_first()[p - 1] == v[p]);
    }
}

pub proof fn lemma_coords_of_insert(v: Seq<EntryView>, pos: int, e: EntryView)
    requires
        0 <= pos <= v.len(),
        forall|k: int| 0 <= k < v.len() ==> (#[trigger] v[k]).class != e.class,
    ensures
        coords_of(v.insert(pos, e), e.class) == e.coords,
        forall|cl: Seq<char>|
            cl != e.class ==> coords_of(v.insert(pos, e), cl) == coords_of(v, cl),
    decreases pos,
{
    let w = v.insert(pos, e);
    v.insert_ensures(pos, e);
    if pos == 0 {
        assert(w[0] == e);
        assert(w.drop_first() =~= v);
    } else {
        assert(w[0] == v[0]);
        assert(w.drop_first() =~= v.drop_first().insert(pos - 1, e));
        assert forall|k: int| 0 <= k < v.drop_first().len() implies (#[trigger] v.drop_first()[
            k
        ]).class != e.class by {
            assert(v[k + 1].class != e.class);
        }
        lemma_coords_of_insert(v.drop_first(), pos - 1, e);
        assert(v[0].class != e.class);
        assert(coords_of(w, e.class) == coords_of(w.drop_first(), e.class));
        assert forall|cl: Seq<char>| cl != e.class implies coords_of(w, cl) == coords_of(v, cl) by {
            if v[0].class == cl {
                assert(coords_of(w, cl) == w[0].coords);
            } else {
                assert(coords_of(w, cl) == coords_of(w.drop_first(), cl));
                assert(coords_of(v, cl) == coords_of(v.drop_first(), cl));
            }
        }
    }
}

pub proof fn lemma_coords_of_update(v: Seq<EntryView>, p: int, e: EntryView)
    requires
        0 <= p < v.len(),
        e.class == v[p].class,
        forall|i: int, j: int| 0 <= i < j < v.len() ==> (#[trigger] v[i]).class != (#[trigger] v[j]).class,
    ensures
        coords_of(v.update(p, e), e.class) == e.coords,
        forall|cl: Seq<char>| cl != e.class ==> coords_of(v.update(p, e), cl) == coords_of(v, cl),
    decreases p,
{
    let w = v.update(p, e);
    if p == 0 {
        assert(w[0] == e);
        assert(w.drop_first() =~= v.drop_first());
        assert forall|cl: Seq<char>| cl != e.class implies coords_of(w, cl) == coords_of(v, cl) by {
            assert(v[0].class == cl <==> false);
        }
    } else {
        assert(w[0] == v[0]);
        assert(w.drop_first() =~= v.drop_first().update(p - 1, e));
        assert forall|i: int, j: int| 0 <= i < j < v.drop_first().len() implies (#[trigger] v.drop_first()[
            i
        ]).class != (#[trigger] v.drop_first()[j]).class by {
            assert(v[i + 1].class != v[j + 1].class);
        }
        assert(v.drop_first()[p - 1] == v[p]);
        lemma_coords_of_update(v.drop_first(), p - 1, e);
        assert(v[0].class != e.class);
        assert(coords_of(w, e.class) == coords_of(w.drop_first(), e.class));
        assert forall|cl: Seq<char>| cl != e.class implies coords_of(w, cl) == coords_of(v, cl) by {
            if v[0].class == cl {
                assert(coords_of(w, cl) == w[0].coords);
            } else {
                assert(coords_of(w, cl) == coords_of(w.drop_first(), cl));
                assert(coords_of(v, cl) == coords_of(v.drop_first(), cl));
            }
        }
    }
}

// ---------------------------------------------------------------------------
// Building blocks of insertion.
// ---------------------------------------------------------------------------

/// Where `c` stands, or would stand, in the ascending coordinate list.
fn find_coord_pos(v: &Vec<Coordinate>, c: &Coordinate) -> (pos: usize)
    ensures
        pos <= v@.len(),
        forall|k: int| 0 <= k < pos ==> coord_le(#[trigger] v.deep_view()[k], c@),
        pos < v@.len() ==> coord_le(c@, v.deep_view()[pos as int]),
{
    let n = v.len();
    let mut pos: usize = 0;
    while pos < n
        invariant
            0 <= pos <= n,
            n == v@.len(),
            forall|k: int| 0 <= k < pos ==> coord_le(#[trigger] v.deep_view()[k], c@),
        decreases n - pos,
    {
        if coord_le_exec(c, &v[pos]) {
            return pos;
        }
        proof {
            lemma_coord_le_connected(v.deep_view()[pos as int], c@);
        }
        pos = pos + 1;
    }
    pos
}

/// Inserts one coordinate into a sorted list, keeping it sorted; the
/// contents grow by exactly that coordinate.
fn insert_coord_sorted(v: &mut Vec<Coordinate>, c: Coordinate)
    requires
        sorted_by(old(v).deep_view(), coord_leq_fn()),
    ensures
        sorted_by(final(v).deep_view(), coord_leq_fn()),
        final(v).deep_view().to_multiset() == old(v).deep_view().to_multiset().insert(c@),
        final(v)@.len() == old(v)@.len() + 1,
{
    let ghost pre = *v;
    let ghost odv = v.deep_view();
    let ghost cv = c@;
    let pos = find_coord_pos(v, &c);
    v.insert(pos, c);
    proof {
        lemma_deep_view_insert(pre, *v, c, pos as int);
        let ndv = v.deep_view();
        odv.insert_ensures(pos as int, cv);
        vstd::seq_lib::to_multiset_insert(odv, pos as int, cv);
        assert forall|i: int, j: int| 0 <= i < j < ndv.len() implies coord_leq_fn()(
            #[trigger] ndv[i],
            #[trigger] ndv[j],
        ) by {
            if j < pos {
                assert(coord_leq_fn()(odv[i], odv[j]));
            } else if j == pos {
                assert(ndv[j] == cv);
                assert(coord_le(odv[i], cv));
            } else {
                if i < pos {
                    assert(coord_leq_fn()(odv[i], odv[j - 1]));
                } else if i == pos {
                    assert(coord_le(cv, odv[pos as int]));
                    if pos as int == j - 1 {
                    } else {
                        assert(coord_leq_fn()(odv[pos as int], odv[j - 1]));
                        lemma_coord_le_trans(cv, odv[pos as int], odv[j - 1]);
                    }
                } else {
                    assert(coord_leq_fn()(odv[i - 1], odv[j - 1]));
                }
            }
        }
    }
}

// ---------------------------------------------------------------------------
// The index operations.
// ---------------------------------------------------------------------------

impl Index {
    /// A fresh, empty index.
    pub fn empty() -> (idx: Index)
        ensures
            idx@ == Seq::<EntryView>::empty(),
            index_wf(idx@),
            idx@.len() == 0,
    {
        let idx = Index { entries: Vec::new() };
        proof {
            assert(idx@ =~= Seq::<EntryView>::empty());
        }
        idx
    }

    /// Where `class` stands, or would stand, in the ascending entry list.
    fn find_class_pos(&self, class: &String) -> (pos: usize)
        requires
            index_wf(self@),
        ensures
            pos <= self@.len(),
            forall|k: int| 0 <= k < pos ==> seq_char_lt((#[trigger] self@[k]).class, class@),
            pos < self@.len() ==> !seq_char_lt(self@[pos as int].class, class@),
    {
        let n = self.entries.len();
        let mut pos: usize = 0;
        while pos < n
            invariant
                0 <= pos <= n,
                n == self.entries@.len(),
                forall|k: int| 0 <= k < pos ==> seq_char_lt((#[trigger] self@[k]).class, class@),
            decreases n - pos,
        {
            let lt = str_lt(&self.entries[pos].class, class);
            if !lt {
                return pos;
            }
            assert(seq_char_lt(self@[pos as int].class, class@));
            pos = pos + 1;
        }
        pos
    }

    /// Records that the archive at `coord` contains `class`. The mapping for
    /// `class` grows by exactly this coordinate; every other class keeps its
    /// coordinates unchanged.
    pub fn insert(&mut self, class: String, coord: Coordinate)
        requires
            index_wf(old(self)@),
        ensures
            index_wf(final(self)@),
            forall|c: CoordView|
                index_count(final(self)@, class@, c) == index_count(old(self)@, class@, c) + (
                if c == coord@ {
                    1nat
                } else {
                    0nat
                }),
            forall|cl: Seq<char>, c: CoordView|
                cl != class@ ==> index_count(final(self)@, cl, c) == index_count(old(self)@, cl, c),
            forall|cl: Seq<char>|
                has_class(final(self)@, cl) <==> (has_class(old(self)@, cl) || cl == class@),
    {
        broadcast use vstd::multiset::group_multiset_axioms;

        let ghost odv = self@;
        let ghost clv = class@;
        let ghost cov = coord@;
        let pos = self.find_class_pos(&class);
        let hit = pos < self.entries.len() && self.entries[pos].class == class;
        if hit {
            proof {
                assert(odv[pos as int].class == clv);
                assert forall|k: int| 0 <= k < pos implies (#[trigger] odv[k]).class != clv by {
                    crate::strutil::lemma_seq_char_lt_asym(odv[k].class, clv);
                }
                assert forall|i: int, j: int| 0 <= i < j < odv.len() implies (#[trigger] odv[i]).class
                    != (#[trigger] odv[j]).class by {
                    crate::strutil::lemma_seq_char_lt_asym(odv[i].class, odv[j].class);
                }
            }
            let ghost pre_entries = self.entries;
            let mut entry = self.entries.remove(pos);
            let ghost ecoords = entry.coords.deep_view();
            insert_coord_sorted(&mut entry.coords, coord);
            let ghost new_entry_view = entry@;
            let ghost mid_entries = self.entries;
            self.entries.insert(pos, entry);
            proof {
                lemma_deep_view_remove(pre_entries, mid_entries, pos as int);
                lemma_deep_view_insert(mid_entries, self.entries, entry, pos as int);
                assert(self@ =~= odv.update(pos as int, new_entry_view)) by {
                    odv.remove_ensures(pos as int);
                    odv.remove(pos as int).insert_ensures(pos as int, new_entry_view);
                }
                let ndv = self@;
                assert(new_entry_view.class == clv);
                assert(new_entry_view.coords.to_multiset() == ecoords.to_multiset().insert(cov));
                lemma_coords_of_update(odv, pos as int, new_entry_view);
                lemma_coords_of_present(odv, pos as int);
                // well-formedness: classes unchanged, entry stays well-formed
                assert forall|i: int, j: int| 0 <= i < j < ndv.len() implies seq_char_lt(
                    (#[trigger] ndv[i]).class,
                    (#[trigger] ndv[j]).class,
                ) by {
                    assert(ndv[i].class == odv[i].class);
                    assert(ndv[j].class == odv[j].class);
                }
                assert forall|k: int| 0 <= k < ndv.len() implies entry_wf(#[trigger] ndv[k]) by {
                    if k != pos {
                        assert(ndv[k] == odv[k]);
                    } else {
                        assert(new_entry_view.coords.to_multiset().len() > 0);
                        assert(new_entry_view.coords.len() > 0) by {
                            broadcast use vstd::seq_lib::group_to_multiset_ensures;

                        }
                    }
                }
                // counts
                assert forall|c: CoordView| index_count(ndv, clv, c) == index_count(odv, clv, c)
                    + (if c == cov {
                    1nat
                } else {
                    0nat
                }) by {
                    assert(coords_of(ndv, clv) == new_entry_view.coords);
                    assert(coords_of(odv, clv) == odv[pos as int].coords);
                }
                assert forall|cl: Seq<char>|
                    has_class(ndv, cl) <==> (has_class(odv, cl) || cl == clv) by {
                    if has_class(ndv, cl) {
                        let w = choose|w: int| 0 <= w < ndv.len() && ndv[w].class == cl;
                        if w != pos {
                            assert(odv[w].class == cl);
                        }
                    }
                    if has_class(odv, cl) {
                        let w = choose|w: int| 0 <= w < odv.len() && odv[w].class == cl;
                        if w != pos {
                            assert(ndv[w].class == cl);
                        }
                    }
                    if cl == clv {
                        assert(ndv[pos as int].class == cl);
                    }
                }
            }
        } else {
            proof {
                lemma_coord_le_total_ordering();
                assert forall|k: int| 0 <= k < odv.len() implies (#[trigger] odv[k]).class != clv by {
                    if k < pos {
                        crate::strutil::lemma_seq_char_lt_asym(odv[k].class, clv);
                    } else if k == pos {
                    } else {
                        if pos < odv.len() {
                            if odv[pos as int].class != clv {
                                crate::strutil::lemma_seq_char_lt_connected(
                                    odv[pos as int].class,
                                    clv,
                                );
                            }
                            if odv[k].class == clv {
                                crate::strutil::lemma_seq_char_lt_asym(odv[pos as int].class, clv);
                            }
                        }
                    }
                }
            }
            let mut coords: Vec<Coordinate> = Vec::new();
            coords.push(coord);
            let entry = ClassEntry { class, coords };
            let ghost ev = entry@;
            let ghost pre_entries = self.entries;
            self.entries.insert(pos, entry);
            proof {
                lemma_deep_view_insert(pre_entries, self.entries, entry, pos as int);
                let ndv = self@;
                odv.insert_ensures(pos as int, ev);
                assert(ev.class == clv);
                assert(ev.coords =~= Seq::<CoordView>::empty().push(cov));
                lemma_coords_of_insert(odv, pos as int, ev);
                lemma_coords_of_absent(odv, clv);
                // well-formedness
                assert forall|i: int, j: int| 0 <= i < j < ndv.len() implies seq_char_lt(
                    (#[trigger] ndv[i]).class,
                    (#[trigger] ndv[j]).class,
                ) by {
                    if j < pos {
                        assert(seq_char_lt(odv[i].class, odv[j].class));
                    } else if j == pos {
                        assert(ndv[i] == odv[i]);
                        assert(seq_char_lt(odv[i].class, clv));
                    } else {
                        if i < pos {
                            assert(seq_char_lt(odv[i].class, odv[j - 1].class) || i == j - 1);
                            if i == j - 1 {
                            } else {
                                assert(ndv[j] == odv[j - 1]);
                            }
                        } else if i == pos {
                            // clv < odv[j-1].class
                            assert(odv[j - 1].class != clv);
                            crate::strutil::lemma_seq_char_lt_connected(odv[j - 1].class, clv);
                            if seq_char_lt(odv[j - 1].class, clv) {
                                // then odv[pos].class <= odv[j-1].class < clv contradicts !lt(odv[pos].class, clv)
                                if pos as int == j - 1 {
                                } else {
                                    assert(seq_char_lt(odv[pos as int].class, odv[j - 1].class));
                                    crate::strutil::lemma_seq_char_lt_trans(
                                        odv[pos as int].class,
                                        odv[j - 1].class,
                                        clv,
                                    );
                                }
                            }
                        } else {
                            assert(seq_char_lt(odv[i - 1].class, odv[j - 1].class));
                        }
                    }
                }
                assert forall|k: int| 0 <= k < ndv.len() implies entry_wf(#[trigger] ndv[k]) by {
                    if k < pos {
                        assert(ndv[k] == odv[k]);
                    } else if k > pos {
                        assert(ndv[k] == odv[k - 1]);
                    } else {
                        assert(ndv[k] == ev);
                        assert(ev.coords.len() == 1);
                    }
                }
                // counts
                assert forall|c: CoordView| index_count(ndv, clv, c) == index_count(odv, clv, c)
                    + (if c == cov {
                    1nat
                } else {
                    0nat
                }) by {
                    assert(coords_of(ndv, clv) == ev.coords);
                    assert(coords_of(odv, clv) == Seq::<CoordView>::empty());
                    broadcast use vstd::seq_lib::group_to_multiset_ensures;

                    assert(ev.coords.to_multiset() =~= Seq::<CoordView>::empty().to_multiset().insert(
                        cov,
                    ));
                }
                assert forall|cl: Seq<char>|
                    has_class(ndv, cl) <==> (has_class(odv, cl) || cl == clv) by {
                    if has_class(ndv, cl) {
                        let w = choose|w: int| 0 <= w < ndv.len() && ndv[w].class == cl;
                        if w < pos {
                            assert(odv[w].class == cl);
                        } else if w > pos {
                            assert(odv[w - 1].class == cl);
                        }
                    }
                    if has_class(odv, cl) {
                        let w = choose|w: int| 0 <= w < odv.len() && odv[w].class == cl;
                        if w < pos {
                            assert(ndv[w].class == cl);
                        } else {
                            assert(ndv[w + 1].class == cl);
                        }
                    }
                    if cl == clv {
                        assert(ndv[pos as int].class == cl);
                    }
                }
            }
        }
    }
}

// ---------------------------------------------------------------------------
// Building the index from scan records.
// ---------------------------------------------------------------------------

impl Index {
    /// Folds scan records into an index. For every class and coordinate, the
    /// index holds the coordinate under the class exactly as many times as
    /// records paired the two; a class appears exactly when some record
    /// mentions it. Zero records yield the empty index, not an error.
    pub fn build(records: Vec<ClassRecord>) -> (idx: Index)
        ensures
            index_wf(idx@),
            forall|cl: Seq<char>, c: CoordView|
                index_count(idx@, cl, c) == record_count(records.deep_view(), cl, c),
            forall|cl: Seq<char>|
                has_class(idx@, cl) <==> (exists|w: int|
                    0 <= w < records.deep_view().len() && (#[trigger] records.deep_view()[
                        w
                    ]).class == cl),
            records@.len() == 0 ==> idx@.len() == 0,
    {
        let ghost rdv = records.deep_view();
        let n = records.len();
        let mut idx = Index::empty();
        proof {
            broadcast use vstd::seq_lib::group_to_multiset_ensures;
            broadcast use vstd::multiset::group_multiset_axioms;

            assert(rdv.subrange(0, 0) =~= Seq::<RecordView>::empty());
            assert forall|cl: Seq<char>, c: CoordView| index_count(idx@, cl, c) == record_count(
                rdv.subrange(0, 0),
                cl,
                c,
            ) by {
                assert(coords_of(idx@, cl) == Seq::<CoordView>::empty());
                assert(Seq::<CoordView>::empty().to_multiset().count(c) == 0);
                assert(Seq::<RecordView>::empty().to_multiset().count(
                    RecordView { class: cl, coord: c },
                ) == 0);
            }
        }
        let mut k: usize = 0;
        while k < n
            invariant
                0 <= k <= n,
                n == records@.len(),
                rdv == records.deep_view(),
                index_wf(idx@),
                forall|cl: Seq<char>, c: CoordView|
                    index_count(idx@, cl, c) == record_count(rdv.subrange(0, k as int), cl, c),
                forall|cl: Seq<char>|
                    has_class(idx@, cl) <==> (exists|w: int|
                        0 <= w < k && (#[trigger] rdv[w]).class == cl),
                n == 0 ==> idx@.len() == 0,
            decreases n - k,
        {
            let class = records[k].class.clone();
            let coord = records[k].coord.clone();
            let ghost clv = class@;
            let ghost cov = coord@;
            assert(clv == rdv[k as int].class);
            assert(cov == rdv[k as int].coord);
            let ghost before = idx@;
            idx.insert(class, coord);
            proof {
                broadcast use vstd::seq_lib::group_to_multiset_ensures;
                broadcast use vstd::multiset::group_multiset_axioms;

                let prefix = rdv.subrange(0, k as int);
                assert(rdv.subrange(0, k + 1) =~= prefix.push(rdv[k as int]));
                assert(prefix.push(rdv[k as int]).to_multiset() == prefix.to_multiset().insert(
                    rdv[k as int],
                ));
                assert forall|cl: Seq<char>, c: CoordView| index_count(idx@, cl, c)
                    == record_count(rdv.subrange(0, k + 1), cl, c) by {
                    let rv = RecordView { class: cl, coord: c };
                    assert(rdv[k as int] =~= RecordView { class: clv, coord: cov });
                    assert(record_count(rdv.subrange(0, k + 1), cl, c) == record_count(
                        prefix,
                        cl,
                        c,
                    ) + (if rv == rdv[k as int] {
                        1nat
                    } else {
                        0nat
                    }));
                    if cl == clv {
                        assert(index_count(idx@, cl, c) == index_count(before, cl, c) + (
                        if c == cov {
                            1nat
                        } else {
                            0nat
                        }));
                    } else {
                        assert(index_count(idx@, cl, c) == index_count(before, cl, c));
                        assert(rv != rdv[k as int]);
                    }
                }
                assert forall|cl: Seq<char>|
                    has_class(idx@, cl) <==> (exists|w: int|
                        0 <= w < k + 1 && (#[trigger] rdv[w]).class == cl) by {
                    if has_class(idx@, cl) {
                        if cl == clv {
                            assert(rdv[k as int].class == cl);
                        }
                    }
                    if exists|w: int| 0 <= w < k + 1 && (#[trigger] rdv[w]).class == cl {
                        let w = choose|w: int| 0 <= w < k + 1 && (#[trigger] rdv[w]).class == cl;
                        if w < k {
                            assert(has_class(before, cl));
                        }
                    }
                }
            }
            k = k + 1;
        }
        proof {
            assert(rdv.subrange(0, n as int) =~= rdv);
        }
        idx
    }
}

// ---------------------------------------------------------------------------
// Canonicity: the index is determined by its contents, not by build order.
// ---------------------------------------------------------------------------

pub open spec fn class_of_fn() -> spec_fn(EntryView) -> Seq<char> {
    |e: EntryView| e.class
}

/// A well-formed index is the canonical form of its contents: two indexes
/// that hold the same classes with the same coordinate counts are equal.
pub proof fn lemma_index_canonical(a: Seq<EntryView>, b: Seq<EntryView>)
    requires
        index_wf(a),
        index_wf(b),
        forall|cl: Seq<char>| has_class(a, cl) <==> has_class(b, cl),
        forall|cl: Seq<char>, c: CoordView| index_count(a, cl, c) == index_count(b, cl, c),
    ensures
        a == b,
{
    broadcast use vstd::seq_lib::group_to_multiset_ensures;
    broadcast use vstd::multiset::group_multiset_axioms;

    crate::strutil::lemma_seq_char_le_total_ordering();
    lemma_coord_le_total_ordering();
    let ca = a.map_values(class_of_fn());
    let cb = b.map_values(class_of_fn());
    lemma_classes_sorted(a);
    lemma_classes_sorted(b);
    assert forall|x: Seq<char>| true implies #[trigger] ca.to_multiset().count(x)
        == cb.to_multiset().count(x) by {
        ca.lemma_multiset_has_no_duplicates();
        cb.lemma_multiset_has_no_duplicates();
        assert(ca.contains(x) <==> has_class(a, x)) by {
            if ca.contains(x) {
                let w = choose|w: int| 0 <= w < ca.len() && ca[w] == x;
                assert(a[w].class == x);
            }
            if has_class(a, x) {
                let w = choose|w: int| 0 <= w < a.len() && (#[trigger] a[w]).class == x;
                assert(ca[w] == x);
            }
        }
        assert(cb.contains(x) <==> has_class(b, x)) by {
            if cb.contains(x) {
                let w = choose|w: int| 0 <= w < cb.len() && cb[w] == x;
                assert(b[w].class == x);
            }
            if has_class(b, x) {
                let w = choose|w: int| 0 <= w < b.len() && (#[trigger] b[w]).class == x;
                assert(cb[w] == x);
            }
        }
        if ca.contains(x) {
            assert(ca.to_multiset().count(x) == 1);
            assert(cb.to_multiset().count(x) == 1);
        } else {
            assert(ca.to_multiset().count(x) == 0);
            assert(cb.to_multiset().count(x) == 0);
        }
    }
    assert(ca.to_multiset() =~= cb.to_multiset());
    vstd::seq_lib::lemma_sorted_unique(ca, cb, crate::strutil::seq_char_leq_fn());
    assert(ca == cb);
    assert(a.len() == b.len());
    assert forall|k: int| 0 <= k < a.len() implies a[k] == b[k] by {
        assert(ca[k] == cb[k]);
        assert(a[k].class == b[k].class);
        let cl = a[k].class;
        assert forall|w: int| 0 <= w < k implies (#[trigger] a[w]).class != cl by {
            crate::strutil::lemma_seq_char_lt_asym(a[w].class, cl);
        }
        assert forall|w: int| 0 <= w < k implies (#[trigger] b[w]).class != cl by {
            crate::strutil::lemma_seq_char_lt_asym(b[w].class, cl);
        }
        lemma_coords_of_present(a, k);
        lemma_coords_of_present(b, k);
        assert forall|c: CoordView| true implies #[trigger] a[k].coords.to_multiset().count(c)
            == b[k].coords.to_multiset().count(c) by {
            assert(index_count(a, cl, c) == index_count(b, cl, c));
        }
        assert(a[k].coords.to_multiset() =~= b[k].coords.to_multiset());
        assert(entry_wf(a[k]));
        assert(entry_wf(b[k]));
        vstd::seq_lib::lemma_sorted_unique(a[k].coords, b[k].coords, coord_leq_fn());
        assert(a[k] =~= b[k]);
    }
    assert(a =~= b);
}

proof fn lemma_classes_sorted(a: Seq<EntryView>)
    requires
        index_wf(a),
    ensures
        vstd::relations::sorted_by(a.map_values(class_of_fn()), crate::strutil::seq_char_leq_fn()),
        a.map_values(class_of_fn()).no_duplicates(),
{
    let ca = a.map_values(class_of_fn());
    assert forall|i: int, j: int| 0 <= i < j < ca.len() implies crate::strutil::seq_char_leq_fn()(
        ca[i],
        ca[j],
    ) by {
        assert(seq_char_lt(a[i].class, a[j].class));
    }
    assert forall|i: int, j: int| 0 <= i < j < ca.len() implies ca[i] != ca[j] by {
        assert(seq_char_lt(a[i].class, a[j].class));
        crate::strutil::lemma_seq_char_lt_asym(a[i].class, a[j].class);
    }
    assert forall|i: int, j: int| i != j && 0 <= i < ca.len() && 0 <= j < ca.len() implies ca[i]
        != ca[j] by {
        if i < j {
            assert(seq_char_lt(a[i].class, a[j].class));
            crate::strutil::lemma_seq_char_lt_asym(a[i].class, a[j].class);
        } else {
            assert(seq_char_lt(a[j].class, a[i].class));
            crate::strutil::lemma_seq_char_lt_asym(a[j].class, a[i].class);
        }
    }
}

/// Folding the same records in any order yields the same index: two runs
/// whose record sequences are permutations of one another, each satisfying
/// the builder's contract, produce equal indexes.
pub proof fn lemma_build_order_independent(
    rs1: Seq<RecordView>,
    rs2: Seq<RecordView>,
    a: Seq<EntryView>,
    b: Seq<EntryView>,
)
    requires
        rs1.to_multiset() == rs2.to_multiset(),
        index_wf(a),
        index_wf(b),
        forall|cl: Seq<char>, c: CoordView| index_count(a, cl, c) == record_count(rs1, cl, c),
        forall|cl: Seq<char>, c: CoordView| index_count(b, cl, c) == record_count(rs2, cl, c),
        forall|cl: Seq<char>|
            has_class(a, cl) <==> (exists|k: int|
                0 <= k < rs1.len() && (#[trigger] rs1[k]).class == cl),
        forall|cl: Seq<char>|
            has_class(b, cl) <==> (exists|k: int|
                0 <= k < rs2.len() && (#[trigger] rs2[k]).class == cl),
    ensures
        a == b,
{
    broadcast use vstd::seq_lib::group_to_multiset_ensures;
    broadcast use vstd::multiset::group_multiset_axioms;

    assert forall|cl: Seq<char>| true implies (has_class(a, cl) <==> has_class(b, cl)) by {
        if has_class(a, cl) {
            let k = choose|k: int| 0 <= k < rs1.len() && (#[trigger] rs1[k]).class == cl;
            assert(rs1.contains(rs1[k]));
            assert(rs2.to_multiset().contains(rs1[k]));
            assert(rs2.contains(rs1[k]));
            let w = choose|w: int| 0 <= w < rs2.len() && rs2[w] == rs1[k];
            assert(rs2[w].class == cl);
        }
        if has_class(b, cl) {
            let k = choose|k: int| 0 <= k < rs2.len() && (#[trigger] rs2[k]).class == cl;
            assert(rs2.contains(rs2[k]));
            assert(rs1.to_multiset().contains(rs2[k]));
            assert(rs1.contains(rs2[k]));
            let w = choose|w: int| 0 <= w < rs1.len() && rs1[w] == rs2[k];
            assert(rs1[w].class == cl);
        }
    }
    lemma_index_canonical(a, b);
}

// ---------------------------------------------------------------------------
// Querying the built index.
// ---------------------------------------------------------------------------

/// A class name as the interactive matcher displays it: path separators
/// turned into package separators.
pub open spec fn dotted(s: Seq<char>) -> Seq<char> {
    s.map_values(|c: char| if c == '/' { '.' } else { c })
}

fn clone_coords(v: &Vec<Coordinate>) -> (r: Vec<Coordinate>)
    ensures
        r.deep_view() == v.deep_view(),
{
    let n = v.len();
    let mut r: Vec<Coordinate> = Vec::new();
    let mut i: usize = 0;
    while i < n
        invariant
            0 <= i <= n,
            n == v@.len(),
            r.deep_view() == v.deep_view().subrange(0, i as int),
        decreases n - i,
    {
        let c = v[i].clone();
        let ghost before = r;
        r.push(c);
        proof {
            lemma_deep_view_push(before, r, c);
            assert(r.deep_view() =~= v.deep_view().subrange(0, i + 1));
        }
        i = i + 1;
    }
    proof {
        assert(v.deep_view().subrange(0, n as int) =~= v.deep_view());
    }
    r
}

impl Index {
    pub fn len(&self) -> (n: usize)
        ensures
            n == self@.len(),
    {
        self.entries.len()
    }

    /// The class name of the entry at one position of the ascending list.
    pub fn class_at(&self, i: usize) -> (c: &String)
        requires
            i < self@.len(),
        ensures
            c@ == self@[i as int].class,
    {
        &self.entries[i].class
    }

    /// The coordinates recorded for a class, in sorted order; the empty list
    /// exactly when the class is absent (given a well-formed index).
    pub fn lookup(&self, class: &String) -> (r: Vec<Coordinate>)
        ensures
            r.deep_view() == coords_of(self@, class@),
    {
        let n = self.entries.len();
        proof {
            assert(self@.skip(0) =~= self@);
        }
        let mut i: usize = 0;
        while i < n
            invariant
                0 <= i <= n,
                n == self@.len(),
                coords_of(self@, class@) == coords_of(self@.skip(i as int), class@),
            decreases n - i,
        {
            proof {
                assert(self@.skip(i as int)[0] == self@[i as int]);
                assert(self@.skip(i as int).drop_first() =~= self@.skip(i + 1));
            }
            if self.entries[i].class == *class {
                assert(self@[i as int].class == class@);
                return clone_coords(&self.entries[i].coords);
            }
            assert(self@[i as int].class != class@);
            i = i + 1;
        }
        proof {
            assert(self@.skip(n as int).len() == 0);
        }
        Vec::new()
    }

    /// Resolves the outcome of one interactive selection: a chosen position
    /// yields that entry's coordinate list, and a cancelled session yields
    /// the empty list — cancellation is not an error.
    pub fn resolve_selection(&self, selection: Option<usize>) -> (r: Vec<Coordinate>)
        requires
            match selection {
                Some(i) => i < self@.len(),
                None => true,
            },
        ensures
            match selection {
                Some(i) => r.deep_view() == self@[i as int].coords,
                None => r@.len() == 0,
            },
    {
        match selection {
            Some(i) => clone_coords(&self.entries[i].coords),
            None => Vec::new(),
        }
    }

    /// The class names in index order, each in displayed (dotted) form: what
    /// the interactive matcher is handed, one key per entry.
    pub fn display_keys(&self) -> (keys: Vec<String>)
        ensures
            keys.deep_view().len() == self@.len(),
            forall|k: int|
                0 <= k < self@.len() ==> (#[trigger] keys.deep_view()[k]) == dotted(
                    self@[k].class,
                ),
    {
        let n = self.entries.len();
        let mut keys: Vec<String> = Vec::new();
        let mut i: usize = 0;
        while i < n
            invariant
                0 <= i <= n,
                n == self@.len(),
                keys.deep_view().len() == i,
                forall|k: int|
                    0 <= k < i ==> (#[trigger] keys.deep_view()[k]) == dotted(self@[k].class),
            decreases n - i,
        {
            let key = crate::strutil::replace_char(self.entries[i].class.as_str(), '/', '.');
            proof {
                assert(key@ =~= dotted(self@[i as int].class));
            }
            let ghost before = keys;
            keys.push(key);
            proof {
                lemma_deep_view_push(before, keys, key);
            }
            i = i + 1;
        }
        keys
    }
}

} // verus!
