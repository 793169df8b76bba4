use vstd::prelude::*;
use vstd::assert_seqs_equal;

use crate::color::MyColor;
use crate::error::MosaicError;

verus! {

/// A handle to a tile image: the bytes of its filesystem path (UTF-8).
/// Several tiles may share one average color.
#[derive(PartialEq, Eq, Debug)]
pub struct TileRef {
    pub path: Vec<u8>,
}

impl TileRef {
    pub fn new(path: Vec<u8>) -> (t: TileRef)
        ensures
            t.path@ == path@,
    {
        TileRef { path }
    }
}

impl Clone for TileRef {
    fn clone(&self) -> (t: Self)
        ensures
            t.path@ == self.path@,
    {
        let n = self.path.len();
        let mut path: Vec<u8> = Vec::new();
        for i in 0..n
            invariant
                n == self.path@.len(),
                path@ == self.path@.take(i as int),
        {
            path.push(self.path[i]);
        }
        proof {
            assert(self.path@.take(n as int) == self.path@);
        }
        TileRef { path }
    }
}

/// One entry of the index: a color and the tiles whose average color it is,
/// in build-time discovery order.
#[derive(PartialEq, Eq, Clone, Debug)]
pub struct Entry {
    pub color: MyColor,
    pub refs: Vec<TileRef>,
}

/// The mathematical model of an index: a sequence of keys, each with the
/// path bytes of its tiles.
pub type IndexModel = Seq<(MyColor, Seq<Seq<u8>>)>;

/// One candidate tile offered to the index build: its average color, if
/// feature extraction succeeded, and its handle. A candidate whose color is
/// `None` (an unreadable image) is skipped by the build, not fatal.
#[derive(PartialEq, Eq, Clone, Debug)]
pub struct TileSample {
    pub color: Option<MyColor>,
    pub tile: TileRef,
}

/// Does the model hold an entry for this color?
pub open spec fn model_has_key(m: IndexModel, c: MyColor) -> bool {
    exists|k: int| 0 <= k < m.len() && m[k].0 == c
}

/// The position of the first entry for `c`, or the model's length when no
/// entry has that color.
pub open spec fn key_pos(m: IndexModel, c: MyColor) -> int
    decreases m.len(),
{
    if m.len() == 0 {
        0
    } else if m[0].0 == c {
        0
    } else {
        1 + key_pos(m.skip(1), c)
    }
}

/// `key_pos` finds exactly the keys the model has: a position in range whose
/// color matches, with no earlier match, or the length when the color is
/// absent.
pub proof fn lemma_key_pos(m: IndexModel, c: MyColor)
    ensures
        model_has_key(m, c) ==> {
            &&& 0 <= key_pos(m, c) < m.len()
            &&& m[key_pos(m, c)].0 == c
            &&& forall|j: int| 0 <= j < key_pos(m, c) ==> (#[trigger] m[j]).0 != c
        },
        !model_has_key(m, c) ==> key_pos(m, c) == m.len(),
    decreases m.len(),
{
    if m.len() > 0 && m[0].0 != c {
        let t = m.skip(1);
        lemma_key_pos(t, c);
        assert(forall|j: int| 0 <= j < t.len() ==> #[trigger] t[j] == m[j + 1]);
        if model_has_key(m, c) {
            let w = choose|k: int| 0 <= k < m.len() && m[k].0 == c;
            assert(t[w - 1].0 == c);
            assert(model_has_key(t, c));
            let kt = key_pos(t, c);
            assert(key_pos(m, c) == 1 + kt);
            assert(m[1 + kt] == t[kt]);
            assert forall|j: int| 0 <= j < key_pos(m, c) implies (#[trigger] m[j]).0 != c by {
                if j >= 1 {
                    assert(m[j] == t[j - 1]);
                }
            }
        } else {
            assert forall|k: int| 0 <= k < t.len() implies (#[trigger] t[k]).0 != c by {
                assert(t[k] == m[k + 1]);
            }
            assert(!model_has_key(t, c));
        }
    }
}

/// Adding one tile of color `c` to a model: append to the entry for `c` if
/// one exists, else create a new singleton entry at the end.
pub open spec fn model_insert(m: IndexModel, c: MyColor, p: Seq<u8>) -> IndexModel {
    if model_has_key(m, c) {
        let k = key_pos(m, c);
        m.update(k, (c, m[k].1.push(p)))
    } else {
        m.push((c, seq![p]))
    }
}

/// The model built from a sequence of candidate tiles: the valid ones are
/// grouped by exact color, in discovery order; the failed ones are skipped.
pub open spec fn group(s: Seq<TileSample>) -> IndexModel
    decreases s.len(),
{
    if s.len() == 0 {
        Seq::empty()
    } else {
        match s.last().color {
            Some(c) => model_insert(group(s.drop_last()), c, s.last().tile.path@),
            None => group(s.drop_last()),
        }
    }
}

/// How many candidates had a usable color.
pub open spec fn valid_count(s: Seq<TileSample>) -> nat
    decreases s.len(),
{
    if s.len() == 0 {
        0
    } else {
        valid_count(s.drop_last()) + if s.last().color is Some { 1nat } else { 0nat }
    }
}

/// Total number of tile references held across all entries of a model.
pub open spec fn total_refs(m: IndexModel) -> nat
    decreases m.len(),
{
    if m.len() == 0 {
        0
    } else {
        total_refs(m.drop_last()) + m.last().1.len()
    }
}

/// The color-keyed index: a mapping from an exact average color to the
/// non-empty ordered collection of tiles sharing it. Read-only once built;
/// composition never mutates it.
#[derive(PartialEq, Eq, Clone, Debug)]
pub struct ColorIndex {
    pub entries: Vec<Entry>,
}

/// The abstract value of a run of entries.
pub open spec fn entries_model(es: Seq<Entry>) -> IndexModel {
    es.map(|i: int, e: Entry| (e.color, e.refs@.map(|j: int, t: TileRef| t.path@)))
}

impl ColorIndex {
    /// The abstract value of the index.
    pub open spec fn model(self) -> IndexModel {
        entries_model(self.entries@)
    }

    /// The keys, in insertion order. This order is the fixed deterministic
    /// ordering the nearest-color scan walks.
    pub open spec fn keys(self) -> Seq<MyColor> {
        self.entries@.map(|i: int, e: Entry| e.color)
    }

    /// Structural soundness: keys are pairwise distinct and every entry holds
    /// at least one tile. Holds at every point of a build.
    pub open spec fn grouped(self) -> bool {
        &&& forall|i: int, j: int|
            0 <= i < j < self.entries@.len() ==> self.entries@[i].color != self.entries@[j].color
        &&& forall|i: int| 0 <= i < self.entries@.len() ==> #[trigger] self.entries@[i].refs@.len() > 0
    }

    /// A well-formed index: structurally sound and non-empty. An index with
    /// zero entries is a build-failure state, never a valid value.
    pub open spec fn wf(self) -> bool {
        self.grouped() && self.entries@.len() > 0
    }

    /// An empty builder state. Not yet well formed: at least one insertion
    /// must succeed before the index is usable.
    pub fn empty() -> (ix: ColorIndex)
        ensures
            ix.model() == Seq::<(MyColor, Seq<Seq<u8>>)>::empty(),
            ix.grouped(),
            ix.entries@.len() == 0,
    {
        let ix = ColorIndex { entries: Vec::new() };
        proof {
            assert_seqs_equal!(ix.model() == Seq::<(MyColor, Seq<Seq<u8>>)>::empty());
        }
        ix
    }

    /// Number of entries (distinct colors).
    pub fn len(&self) -> (n: usize)
        ensures
            n == self.entries@.len(),
    {
        self.entries.len()
    }

    /// The position of the entry for `color`, if the index has one.
    pub fn find(&self, color: &MyColor) -> (r: Option<usize>)
        ensures
            match r {
                Some(k) => k < self.entries@.len() && self.entries@[k as int].color == *color,
                None => !model_has_key(self.model(), *color),
            },
    {
        let n = self.entries.len();
        for i in 0..n
            invariant
                n == self.entries@.len(),
                forall|j: int| 0 <= j < i ==> self.entries@[j].color != *color,
        {
            if self.entries[i].color == *color {
                return Some(i);
            }
        }
        None
    }

    /// Add one tile of the given color: append to the color's entry if it
    /// exists, else open a new entry at the end (discovery order is kept).
    pub fn insert(&mut self, color: MyColor, tile: TileRef)
        requires
            old(self).grouped(),
        ensures
            final(self).grouped(),
            final(self).model() == model_insert(old(self).model(), color, tile.path@),
            final(self).entries@.len() >= old(self).entries@.len(),
    {
        let ghost m0 = self.model();
        let found = self.find(&color);
        match found {
            Some(i) => {
                let mut e = self.entries.remove(i);
                e.refs.push(tile);
                self.entries.insert(i, e);
                proof {
                    assert(m0[i as int].0 == color);
                    assert(model_has_key(m0, color));
                    lemma_key_pos(m0, color);
                    let k = key_pos(m0, color);
                    // keys are distinct, so the found slot is the first match
                    assert(old(self).entries@[k].color == color);
                    assert(k == i as int);
                    assert_seqs_equal!(self.model() == model_insert(m0, color, tile.path@));
                    assert(self.entries@.len() == old(self).entries@.len());
                    assert(forall|j: int|
                        0 <= j < self.entries@.len() && j != i ==> self.entries@[j]
                            == old(self).entries@[j]);
                    assert(self.entries@[i as int].color == color);
                    assert(self.entries@[i as int].refs@.len() > 0);
                    assert forall|a: int, b: int| 0 <= a < b < self.entries@.len() implies
                        self.entries@[a].color != self.entries@[b].color by {
                        assert(self.entries@[a].color == old(self).entries@[a].color);
                        assert(self.entries@[b].color == old(self).entries@[b].color);
                        assert(old(self).entries@[a].color != old(self).entries@[b].color);
                    }
                    assert forall|a: int| 0 <= a < self.entries@.len() implies
                        #[trigger] self.entries@[a].refs@.len() > 0 by {
                        if a != i as int {
                            assert(self.entries@[a] == old(self).entries@[a]);
                            assert(old(self).entries@[a].refs@.len() > 0);
                        }
                    }
                    assert(self.grouped());
                }
            },
            None => {
                let mut refs: Vec<TileRef> = Vec::new();
                refs.push(tile);
                self.entries.push(Entry { color, refs });
                proof {
                    assert(!model_has_key(m0, color));
                    assert_seqs_equal!(self.model() == model_insert(m0, color, tile.path@));
                    let ghost n0 = old(self).entries@.len() as int;
                    assert(forall|j: int|
                        0 <= j < n0 ==> self.entries@[j] == old(self).entries@[j]);
                    assert forall|a: int, b: int| 0 <= a < b < self.entries@.len() implies
                        self.entries@[a].color != self.entries@[b].color by {
                        if b < n0 {
                            assert(old(self).entries@[a].color != old(self).entries@[b].color);
                        } else {
                            // the new key matches no old one
                            assert(m0[a].0 == old(self).entries@[a].color);
                            assert(self.entries@[b].color == color);
                        }
                    }
                    assert forall|a: int| 0 <= a < self.entries@.len() implies
                        #[trigger] self.entries@[a].refs@.len() > 0 by {
                        if a < n0 {
                            assert(old(self).entries@[a].refs@.len() > 0);
                        }
                    }
                    assert(self.grouped());
                }
            },
        }
    }
}

/// Build an index from candidate tiles: group the valid ones by exact color
/// in discovery order; skip the failed ones. A build in which no candidate
/// was usable signals `EmptyIndexError` rather than producing an empty index.
pub fn build_index(samples: &Vec<TileSample>) -> (r: Result<ColorIndex, MosaicError>)
    ensures
        match r {
            Ok(ix) => {
                &&& ix.wf()
                &&& ix.model() == group(samples@)
                &&& valid_count(samples@) > 0
            },
            Err(e) => e == MosaicError::EmptyIndexError && valid_count(samples@) == 0,
        },
{
    let mut ix = ColorIndex::empty();
    let n = samples.len();
    for i in 0..n
        invariant
            n == samples@.len(),
            ix.grouped(),
            ix.model() == group(samples@.take(i as int)),
            ix.entries@.len() > 0 <==> valid_count(samples@.take(i as int)) > 0,
    {
        proof {
            assert(samples@.take(i + 1).drop_last() == samples@.take(i as int));
            assert(samples@.take(i + 1).last() == samples@[i as int]);
        }
        match &samples[i].color {
            Some(c) => {
                ix.insert(*c, samples[i].tile.clone());
                proof {
                    assert(ix.entries@.len() == ix.model().len());
                    assert(ix.model().len() > 0);
                }
            },
            None => {},
        }
    }
    proof {
        assert(samples@.take(n as int) == samples@);
    }
    if ix.entries.len() == 0 {
        Err(MosaicError::EmptyIndexError)
    } else {
        Ok(ix)
    }
}

/// The position of the winning key after scanning the first `n` keys with
/// strict-less-than replacement of the running minimum distance: the first
/// key at the minimum distance wins ties.
pub open spec fn best_idx(c: MyColor, keys: Seq<MyColor>, n: int) -> int
    decreases n,
{
    if n <= 1 {
        0
    } else {
        let p = best_idx(c, keys, n - 1);
        if MyColor::dist_sq(c, keys[n - 1]) < MyColor::dist_sq(c, keys[p]) {
            n - 1
        } else {
            p
        }
    }
}

/// The winning key is minimal in distance among the first `n` keys, and every
/// key before it is strictly farther: the scan returns the first minimum.
pub proof fn lemma_best_idx(c: MyColor, keys: Seq<MyColor>, n: int)
    requires
        1 <= n <= keys.len(),
    ensures
        0 <= best_idx(c, keys, n) < n,
        forall|j: int|
            0 <= j < n ==> MyColor::dist_sq(c, keys[best_idx(c, keys, n)])
                <= MyColor::dist_sq(c, #[trigger] keys[j]),
        forall|j: int|
            0 <= j < best_idx(c, keys, n) ==> MyColor::dist_sq(c, #[trigger] keys[j])
                > MyColor::dist_sq(c, keys[best_idx(c, keys, n)]),
    decreases n,
{
    if n > 1 {
        lemma_best_idx(c, keys, n - 1);
    }
}

/// The nearest key of the index under the Euclidean RGB metric: a linear
/// scan over the keys in their insertion order, keeping the minimum distance
/// seen so far. Replacement is by strict less-than, so of several keys at
/// the minimum distance the one earliest in the index wins; that order is
/// fixed by the index value itself, so the result is stable across runs.
/// The scan starts from the first key itself, so no sentinel distance is
/// needed: every attainable distance replaces nothing only if a no smaller
/// one was already seen.
pub fn nearest_color(color: &MyColor, db: &ColorIndex) -> (r: MyColor)
    requires
        db.wf(),
    ensures
        r == db.keys()[best_idx(*color, db.keys(), db.keys().len() as int)],
        model_has_key(db.model(), r),
        forall|j: int|
            0 <= j < db.keys().len() ==> MyColor::dist_sq(*color, r)
                <= MyColor::dist_sq(*color, #[trigger] db.keys()[j]),
{
    let k = nearest_entry(color, db);
    proof {
        let keys = db.keys();
        lemma_best_idx(*color, keys, keys.len() as int);
        let b = best_idx(*color, keys, keys.len() as int);
        assert(db.model()[b].0 == keys[b]);
    }
    db.entries[k].color
}

/// The position of the nearest key of the index: the same scan as
/// `nearest_color`, returning where the winning key stands.
pub fn nearest_entry(color: &MyColor, db: &ColorIndex) -> (k: usize)
    requires
        db.wf(),
    ensures
        k < db.entries@.len(),
        k as int == best_idx(*color, db.keys(), db.keys().len() as int),
        db.entries@[k as int].color == db.keys()[k as int],
{
    let ghost keys = db.keys();
    let n = db.entries.len();
    let mut best: usize = 0;
    let mut best_d = color.distance(&db.entries[0].color);
    proof {
        assert(keys[0] == db.entries@[0].color);
    }
    for i in 1..n
        invariant
            1 <= i <= n,
            n == db.entries@.len(),
            keys == db.keys(),
            keys.len() == n,
            forall|j: int| 0 <= j < n ==> keys[j] == db.entries@[j].color,
            best < i,
            best as int == best_idx(*color, keys, i as int),
            best_d == MyColor::dist_sq(*color, keys[best as int]),
    {
        let d = color.distance(&db.entries[i].color);
        if d < best_d {
            best = i;
            best_d = d;
        }
    }
    best
}

/// Tile count of a model after one insertion: exactly one more.
proof fn lemma_total_refs_update(m: IndexModel, k: int, e: (MyColor, Seq<Seq<u8>>))
    requires
        0 <= k < m.len(),
        e.1.len() == m[k].1.len() + 1,
    ensures
        total_refs(m.update(k, e)) == total_refs(m) + 1,
    decreases m.len(),
{
    let u = m.update(k, e);
    if k == m.len() - 1 {
        assert_seqs_equal!(u.drop_last() == m.drop_last());
        assert(u.last() == e);
    } else {
        assert_seqs_equal!(u.drop_last() == m.drop_last().update(k, e));
        lemma_total_refs_update(m.drop_last(), k, e);
        assert(u.last() == m.last());
    }
}

proof fn lemma_model_insert_total(m: IndexModel, c: MyColor, p: Seq<u8>)
    ensures
        total_refs(model_insert(m, c, p)) == total_refs(m) + 1,
{
    let u = model_insert(m, c, p);
    if model_has_key(m, c) {
        lemma_key_pos(m, c);
        let k = key_pos(m, c);
        lemma_total_refs_update(m, k, (c, m[k].1.push(p)));
        assert(u == m.update(k, (c, m[k].1.push(p))));
    } else {
        assert(u == m.push((c, seq![p])));
        assert_seqs_equal!(u.drop_last() == m);
        assert(u.last() == (c, seq![p]));
        assert(u.last().1.len() == 1);
        assert(u.len() == m.len() + 1);
        assert(total_refs(u) == total_refs(u.drop_last()) + u.last().1.len());
    }
}

/// After an insertion the model has the inserted key, and every other key
/// exactly as before.
proof fn lemma_model_insert_keys(m: IndexModel, c2: MyColor, p: Seq<u8>, c: MyColor)
    ensures
        model_has_key(model_insert(m, c2, p), c) <==> (model_has_key(m, c) || c == c2),
{
    let u = model_insert(m, c2, p);
    lemma_key_pos(m, c2);
    if model_has_key(m, c2) {
        let k = key_pos(m, c2);
        assert(u[k].0 == c2);
        if c == c2 {
            assert(model_has_key(u, c));
        } else if model_has_key(m, c) {
            let j = choose|j: int| 0 <= j < m.len() && m[j].0 == c;
            assert(j != k);
            assert(u[j].0 == c);
            assert(model_has_key(u, c));
        }
        if model_has_key(u, c) {
            let j = choose|j: int| 0 <= j < u.len() && u[j].0 == c;
            if j == k {
                assert(c == c2);
            } else {
                assert(m[j].0 == c);
            }
        }
    } else {
        assert(u[m.len() as int].0 == c2);
        if model_has_key(m, c) {
            let j = choose|j: int| 0 <= j < m.len() && m[j].0 == c;
            assert(u[j].0 == c);
        }
        if model_has_key(u, c) {
            let j = choose|j: int| 0 <= j < u.len() && u[j].0 == c;
            if j < m.len() {
                assert(m[j].0 == c);
            } else {
                assert(c == c2);
            }
        }
    }
}

proof fn lemma_group_total(s: Seq<TileSample>)
    ensures
        total_refs(group(s)) == valid_count(s),
    decreases s.len(),
{
    if s.len() > 0 {
        lemma_group_total(s.drop_last());
        match s.last().color {
            Some(c) => {
                lemma_model_insert_total(group(s.drop_last()), c, s.last().tile.path@);
            },
            None => {},
        }
    }
}

proof fn lemma_group_keys(s: Seq<TileSample>, c: MyColor)
    ensures
        model_has_key(group(s), c) <==> exists|i: int|
            0 <= i < s.len() && s[i].color == Some(c),
    decreases s.len(),
{
    if s.len() > 0 {
        let t = s.drop_last();
        lemma_group_keys(t, c);
        match s.last().color {
            Some(c2) => {
                lemma_model_insert_keys(group(t), c2, s.last().tile.path@, c);
            },
            None => {},
        }
        if exists|i: int| 0 <= i < s.len() && s[i].color == Some(c) {
            let i = choose|i: int| 0 <= i < s.len() && s[i].color == Some(c);
            if i < s.len() - 1 {
                assert(t[i].color == Some(c));
            }
        }
        if exists|i: int| 0 <= i < t.len() && t[i].color == Some(c) {
            let i = choose|i: int| 0 <= i < t.len() && t[i].color == Some(c);
            assert(s[i].color == Some(c));
        }
    }
}

/// Counting law of the index build: the grouped model holds exactly the
/// distinct colors of the candidates whose extraction succeeded (its keys
/// are pairwise distinct in any built index), and its entries' tile counts
/// sum to the number of such candidates.
pub proof fn lemma_build_counts(s: Seq<TileSample>)
    ensures
        total_refs(group(s)) == valid_count(s),
        forall|c: MyColor|
            #[trigger] model_has_key(group(s), c) <==> exists|i: int|
                0 <= i < s.len() && s[i].color == Some(c),
{
    lemma_group_total(s);
    assert forall|c: MyColor|
        #[trigger] model_has_key(group(s), c) <==> exists|i: int|
            0 <= i < s.len() && s[i].color == Some(c) by {
        lemma_group_keys(s, c);
    }
}

} // verus!
