//! Finite sets of non-negative integers backed by roaring bitmaps.
//!
//! A [`BitmapSet`] is either a compact set (every member fits in 32 bits) or a
//! wide set (members range over 64 bits). Both are viewed as a `Set<u64>`, so
//! callers never branch on the representation.
use roaring::{MultiOps, RoaringBitmap, RoaringTreemap};
use vstd::prelude::*;

verus! {

#[verifier::external_type_specification]
#[verifier::external_body]
pub struct ExRoaringBitmap(RoaringBitmap);

#[verifier::external_type_specification]
#[verifier::external_body]
pub struct ExRoaringTreemap(RoaringTreemap);

/// The integers held by a 32-bit roaring bitmap, widened to `u64`.
pub uninterp spec fn compact_members(b: RoaringBitmap) -> Set<u64>;

/// The integers held by a 64-bit roaring treemap.
pub uninterp spec fn wide_members(t: RoaringTreemap) -> Set<u64>;

/// `s` is sorted in strictly ascending order.
pub open spec fn strictly_ascending(s: Seq<u64>) -> bool {
    forall|i: int, j: int| 0 <= i < j < s.len() ==> s[i] < s[j]
}

/// `s` lists the members of `m` once each, in ascending order.
pub open spec fn lists_in_order(s: Seq<u64>, m: Set<u64>) -> bool {
    &&& strictly_ascending(s)
    &&& forall|i: int| 0 <= i < s.len() ==> m.contains(#[trigger] s[i])
    &&& forall|x: u64| m.contains(x) ==> s.contains(x)
}

/// The union of a sequence of sets; the empty sequence gives the empty set.
pub open spec fn union_of(s: Seq<Set<u64>>) -> Set<u64>
    decreases s.len(),
{
    if s.len() == 0 {
        Set::empty()
    } else {
        union_of(s.drop_last()).union(s.last())
    }
}

/// The member sets of a sequence of bitmaps.
pub open spec fn compact_views(bs: Seq<RoaringBitmap>) -> Seq<Set<u64>> {
    bs.map_values(|b: RoaringBitmap| compact_members(b))
}

/// The member sets of a sequence of treemaps.
pub open spec fn wide_views(ts: Seq<RoaringTreemap>) -> Seq<Set<u64>> {
    ts.map_values(|t: RoaringTreemap| wide_members(t))
}

/// Relies on `RoaringBitmap::new`: the empty bitmap.
#[verifier::external_body]
fn compact_new() -> (r: RoaringBitmap)
    ensures
        compact_members(r) == Set::<u64>::empty(),
{
    RoaringBitmap::new()
}

/// Relies on `RoaringBitmap::insert`: adds `x`, and tells whether it was absent.
#[verifier::external_body]
fn compact_insert(b: &mut RoaringBitmap, x: u32) -> (r: bool)
    ensures
        compact_members(*final(b)) == compact_members(*old(b)).insert(x as u64),
        r == !compact_members(*old(b)).contains(x as u64),
{
    b.insert(x)
}

/// Relies on `RoaringBitmap::contains`.
#[verifier::external_body]
fn compact_contains(b: &RoaringBitmap, x: u32) -> (r: bool)
    ensures
        r == compact_members(*b).contains(x as u64),
{
    b.contains(x)
}

/// Relies on `RoaringBitmap::len`: the number of distinct members.
#[verifier::external_body]
fn compact_len(b: &RoaringBitmap) -> (r: u64)
    ensures
        r == compact_members(*b).len(),
{
    b.len()
}

/// Relies on `RoaringBitmap::iter`: the members, each once, in ascending order.
#[verifier::external_body]
fn compact_to_vec(b: &RoaringBitmap) -> (r: Vec<u32>)
    ensures
        lists_in_order(r@.map_values(|x: u32| x as u64), compact_members(*b)),
{
    b.iter().collect()
}

/// Relies on `RoaringBitmap::clone`: a bitmap with the same members.
#[verifier::external_body]
fn compact_clone(b: &RoaringBitmap) -> (r: RoaringBitmap)
    ensures
        compact_members(r) == compact_members(*b),
{
    b.clone()
}

/// Relies on `MultiOps::union` over owned bitmaps: the union of all of them.
#[verifier::external_body]
fn compact_union(bs: Vec<RoaringBitmap>) -> (r: RoaringBitmap)
    ensures
        compact_members(r) == union_of(compact_views(bs@)),
{
    bs.union()
}

/// Relies on `RoaringTreemap::new`: the empty treemap.
#[verifier::external_body]
fn wide_new() -> (r: RoaringTreemap)
    ensures
        wide_members(r) == Set::<u64>::empty(),
{
    RoaringTreemap::new()
}

/// Relies on `RoaringTreemap::insert`: adds `x`, and tells whether it was absent.
#[verifier::external_body]
fn wide_insert(t: &mut RoaringTreemap, x: u64) -> (r: bool)
    ensures
        wide_members(*final(t)) == wide_members(*old(t)).insert(x),
        r == !wide_members(*old(t)).contains(x),
{
    t.insert(x)
}

/// Relies on `RoaringTreemap::contains`.
#[verifier::external_body]
fn wide_contains(t: &RoaringTreemap, x: u64) -> (r: bool)
    ensures
        r == wide_members(*t).contains(x),
{
    t.contains(x)
}

/// Relies on `RoaringTreemap::len`: the number of distinct members.
#[verifier::external_body]
fn wide_len(t: &RoaringTreemap) -> (r: u64)
    ensures
        r == wide_members(*t).len(),
{
    t.len()
}

/// Relies on `RoaringTreemap::iter`: the members, each once, in ascending order.
#[verifier::external_body]
fn wide_to_vec(t: &RoaringTreemap) -> (r: Vec<u64>)
    ensures
        lists_in_order(r@, wide_members(*t)),
{
    t.iter().collect()
}

/// Relies on `MultiOps::union` over owned treemaps: the union of all of them.
#[verifier::external_body]
fn wide_union(ts: Vec<RoaringTreemap>) -> (r: RoaringTreemap)
    ensures
        wide_members(r) == union_of(wide_views(ts@)),
{
    ts.union()
}

/// A malformed or out-of-domain bitmap row.
#[derive(Debug, Clone, Copy, PartialEq, Eq, Structural)]
pub enum DecodeError {
    /// The element at this position is not greater than the one before it.
    NotAscending(usize),
}

/// A finite set of non-negative integers in one of two representations.
pub enum BitmapSet {
    /// Every member fits in 32 bits.
    Compact(RoaringBitmap),
    /// Members range over 64 bits.
    Wide(RoaringTreemap),
}

impl View for BitmapSet {
    type V = Set<u64>;

    open spec fn view(&self) -> Set<u64> {
        match self {
            BitmapSet::Compact(b) => compact_members(*b),
            BitmapSet::Wide(t) => wide_members(*t),
        }
    }
}

/// Every set of `u64` values is finite.
pub proof fn lemma_finite(s: Set<u64>)
    ensures
        s.finite(),
{
    broadcast use vstd::set_lib::full_set_properties;

    assert(Set::<u64>::full().finite());
    vstd::set_lib::lemma_set_subset_finite(Set::<u64>::full(), s);
}

/// A strictly ascending sequence has as many members as elements.
pub proof fn lemma_ascending_len(s: Seq<u64>)
    requires
        strictly_ascending(s),
    ensures
        s.to_set().len() == s.len(),
{
    assert(s.no_duplicates()) by {
        assert forall|i: int, j: int| 0 <= i < s.len() && 0 <= j < s.len() && i != j implies s[i]
            != s[j] by {
            if i < j {
                assert(s[i] < s[j]);
            } else {
                assert(s[j] < s[i]);
            }
        }
    }
    s.unique_seq_to_set();
}

/// A listing in order has as many elements as the set has members.
pub proof fn lemma_listing_len(s: Seq<u64>, m: Set<u64>)
    requires
        lists_in_order(s, m),
    ensures
        s.len() == m.len(),
{
    assert(s.to_set() =~= m);
    lemma_ascending_len(s);
}

/// The views of a column of sets, row by row.
pub open spec fn views(s: Seq<BitmapSet>) -> Seq<Set<u64>> {
    s.map_values(|b: BitmapSet| b@)
}

/// `x` is in the union of a sequence of sets exactly when some set holds it.
pub proof fn lemma_union_of_contains(s: Seq<Set<u64>>, x: u64)
    ensures
        union_of(s).contains(x) <==> exists|i: int| 0 <= i < s.len() && (#[trigger] s[i]).contains(x),
    decreases s.len(),
{
    if s.len() > 0 {
        lemma_union_of_contains(s.drop_last(), x);
        if union_of(s.drop_last()).contains(x) {
            let i = choose|i: int| 0 <= i < s.drop_last().len() && (#[trigger] s.drop_last()[i]).contains(x);
            assert(s[i] == s.drop_last()[i]);
        }
        if exists|i: int| 0 <= i < s.len() && (#[trigger] s[i]).contains(x) {
            let i = choose|i: int| 0 <= i < s.len() && (#[trigger] s[i]).contains(x);
            if i < s.len() - 1 {
                assert(s.drop_last()[i] == s[i]);
            }
        }
    }
}

/// The union of a two-element sequence is the union of the two sets.
pub proof fn lemma_union_of_pair(a: Set<u64>, b: Set<u64>)
    ensures
        union_of(seq![a, b]) == a.union(b),
{
    let s = seq![a, b];
    assert(s.drop_last() =~= seq![a]);
    assert(seq![a].drop_last() =~= Seq::<Set<u64>>::empty());
    assert(union_of(Seq::<Set<u64>>::empty()) == Set::<u64>::empty());
    assert(seq![a].last() == a);
    assert(union_of(seq![a]) =~= a);
    assert(union_of(s) =~= a.union(b));
}

/// Union of two sets by cardinality: the sizes of the two add up to the size
/// of their union plus the size of what they share, so two disjoint sets give
/// a union as large as both together.
pub proof fn lemma_union_cardinality(a: BitmapSet, b: BitmapSet)
    ensures
        union_of(seq![a@, b@]).len() + a@.intersect(b@).len() == a@.len() + b@.len(),
        a@.disjoint(b@) ==> union_of(seq![a@, b@]).len() == a@.len() + b@.len(),
        union_of(seq![a@, b@]) == a@.union(b@),
{
    lemma_union_of_pair(a@, b@);
    lemma_finite(a@);
    lemma_finite(b@);
    vstd::set_lib::lemma_set_intersect_union_lens(a@, b@);
    if a@.disjoint(b@) {
        assert(a@.intersect(b@) =~= Set::<u64>::empty());
    }
}

/// The union of two sets does not depend on their order.
pub proof fn lemma_union_commutes(a: BitmapSet, b: BitmapSet)
    ensures
        union_of(seq![a@, b@]) == union_of(seq![b@, a@]),
{
    lemma_union_of_pair(a@, b@);
    lemma_union_of_pair(b@, a@);
    assert(a@.union(b@) =~= b@.union(a@));
}

impl BitmapSet {
    /// The representation invariant: a compact set holds only 32-bit values.
    pub open spec fn wf(&self) -> bool {
        match self {
            BitmapSet::Compact(b) => forall|x: u64| compact_members(*b).contains(x) ==> x
                <= u32::MAX,
            BitmapSet::Wide(_) => true,
        }
    }

    /// The set uses the wide representation.
    pub open spec fn is_wide(&self) -> bool {
        self is Wide
    }

    /// Whether the set uses the compact representation.
    pub fn is_compact(&self) -> (r: bool)
        ensures
            r == (self is Compact),
    {
        match self {
            BitmapSet::Compact(_) => true,
            BitmapSet::Wide(_) => false,
        }
    }

    /// The empty set, in the compact representation.
    pub fn new() -> (r: BitmapSet)
        ensures
            r.wf(),
            r@ == Set::<u64>::empty(),
            r is Compact,
    {
        BitmapSet::Compact(compact_new())
    }

    /// The empty set, in the wide representation.
    pub fn new_wide() -> (r: BitmapSet)
        ensures
            r.wf(),
            r@ == Set::<u64>::empty(),
            r is Wide,
    {
        BitmapSet::Wide(wide_new())
    }

    /// Adds `x`, widening a compact set when `x` does not fit in 32 bits.
    pub fn insert(&mut self, x: u64)
        requires
            old(self).wf(),
        ensures
            final(self).wf(),
            final(self)@ == old(self)@.insert(x),
            final(self).is_wide() <==> (old(self).is_wide() || x > u32::MAX),
    {
        match self {
            BitmapSet::Compact(b) => {
                if x <= u32::MAX as u64 {
                    compact_insert(b, x as u32);
                    return ;
                }
            },
            BitmapSet::Wide(t) => {
                wide_insert(t, x);
                return ;
            },
        }
        let mut w = self.widen().wide_inner();
        wide_insert(&mut w, x);
        *self = BitmapSet::Wide(w);
    }

    /// Establishes the representation invariant, which every set meets: a
    /// 32-bit bitmap lists only 32-bit values.
    pub fn check_bounds(&self)
        ensures
            self.wf(),
    {
        match self {
            BitmapSet::Compact(b) => {
                let v = compact_to_vec(b);
                let ghost wv = v@.map_values(|x: u32| x as u64);
                assert forall|x: u64| compact_members(*b).contains(x) implies x <= u32::MAX by {
                    assert(wv.contains(x));
                    let i = choose|i: int| 0 <= i < wv.len() && wv[i] == x;
                    assert(wv[i] == v@[i] as u64);
                }
            },
            BitmapSet::Wide(_) => {},
        }
    }

    /// Whether `x` is a member.
    pub fn contains(&self, x: u64) -> (r: bool)
        requires
            self.wf(),
        ensures
            r == self@.contains(x),
    {
        match self {
            BitmapSet::Compact(b) => {
                if x > u32::MAX as u64 {
                    false
                } else {
                    compact_contains(b, x as u32)
                }
            },
            BitmapSet::Wide(t) => wide_contains(t, x),
        }
    }

    /// The number of members.
    pub fn len(&self) -> (r: u64)
        ensures
            r == self@.len(),
    {
        match self {
            BitmapSet::Compact(b) => compact_len(b),
            BitmapSet::Wide(t) => wide_len(t),
        }
    }

    /// The members, each once, in ascending order.
    pub fn to_vec(&self) -> (r: Vec<u64>)
        ensures
            lists_in_order(r@, self@),
            r@.len() == self@.len(),
    {
        match self {
            BitmapSet::Compact(b) => {
                let v = compact_to_vec(b);
                let ghost wv = v@.map_values(|x: u32| x as u64);
                let mut out: Vec<u64> = Vec::new();
                let mut i: usize = 0;
                while i < v.len()
                    invariant
                        i <= v.len(),
                        wv == v@.map_values(|x: u32| x as u64),
                        out@ == wv.take(i as int),
                    decreases v.len() - i,
                {
                    out.push(v[i] as u64);
                    i = i + 1;
                    assert(out@ =~= wv.take(i as int));
                }
                assert(out@ =~= wv);
                proof {
                    lemma_listing_len(out@, self@);
                }
                out
            },
            BitmapSet::Wide(t) => {
                let r = wide_to_vec(t);
                proof {
                    lemma_listing_len(r@, self@);
                }
                r
            },
        }
    }

    /// A set with the same members and the same representation.
    pub fn duplicate(&self) -> (r: BitmapSet)
        requires
            self.wf(),
        ensures
            r.wf(),
            r@ == self@,
            (r is Wide) == (self is Wide),
    {
        match self {
            BitmapSet::Compact(b) => BitmapSet::Compact(compact_clone(b)),
            BitmapSet::Wide(t) => {
                let v = wide_to_vec(t);
                let r = BitmapSet::from_ascending_wide(&v);
                assert(r@ =~= self@);
                r
            },
        }
    }

    /// Builds a wide set from an ascending list of members.
    fn from_ascending_wide(v: &Vec<u64>) -> (r: BitmapSet)
        ensures
            r.wf(),
            r is Wide,
            r@ == v@.to_set(),
    {
        let mut t = wide_new();
        let mut i: usize = 0;
        while i < v.len()
            invariant
                i <= v.len(),
                wide_members(t) == v@.take(i as int).to_set(),
            decreases v.len() - i,
        {
            wide_insert(&mut t, v[i]);
            assert(v@.take(i + 1 as int) =~= v@.take(i as int).push(v[i as int]));
            proof {
                v@.take(i as int).lemma_push_to_set_commute(v[i as int]);
            }
            i = i + 1;
        }
        assert(v@.take(v.len() as int) =~= v@);
        BitmapSet::Wide(t)
    }

    /// The same members in the wide representation.
    pub fn widen(&self) -> (r: BitmapSet)
        requires
            self.wf(),
        ensures
            r.wf(),
            r is Wide,
            r@ == self@,
    {
        let v = self.to_vec();
        let r = BitmapSet::from_ascending_wide(&v);
        assert(r@ =~= self@);
        r
    }

    /// The underlying treemap of a set of the wide representation.
    fn wide_inner(self) -> (r: RoaringTreemap)
        requires
            self is Wide,
        ensures
            wide_members(r) == self@,
    {
        match self {
            BitmapSet::Wide(t) => t,
            BitmapSet::Compact(_) => {
                proof {
                    assert(false);
                }
                wide_new()
            },
        }
    }

    /// Decodes a row of the tabular representation: members in strictly
    /// ascending order. The compact representation is chosen when every member
    /// fits in 32 bits, the wide one otherwise.
    pub fn from_sorted(row: &Vec<u64>) -> (r: Result<BitmapSet, DecodeError>)
        ensures
            strictly_ascending(row@) <==> r is Ok,
            r matches Ok(s) ==> s.wf() && s@ == row@.to_set() && (s is Wide <==> exists|i: int|
                0 <= i < row.len() && row@[i] > u32::MAX),
            r matches Err(DecodeError::NotAscending(i)) ==> 0 < i < row.len() && row@[i - 1]
                >= row@[i as int],
    {
        let mut i: usize = 1;
        while i < row.len()
            invariant
                1 <= i,
                forall|a: int, b: int| 0 <= a < b < i && b < row.len() ==> row@[a] < row@[b],
            decreases row.len() - i,
        {
            if row[i - 1] >= row[i] {
                return Err(DecodeError::NotAscending(i));
            }
            i = i + 1;
        }
        let n = row.len();
        if n > 0 && row[n - 1] > u32::MAX as u64 {
            let r = BitmapSet::from_ascending_wide(row);
            return Ok(r);
        }
        let mut b = compact_new();
        let mut k: usize = 0;
        while k < n
            invariant
                k <= n == row.len(),
                strictly_ascending(row@),
                n == 0 || row@[n - 1] <= u32::MAX,
                compact_members(b) == row@.take(k as int).to_set(),
            decreases n - k,
        {
            assert(row@[k as int] <= row@[n - 1]);
            compact_insert(&mut b, row[k] as u32);
            assert(row@.take(k + 1 as int) =~= row@.take(k as int).push(row[k as int]));
            proof {
                row@.take(k as int).lemma_push_to_set_commute(row[k as int]);
            }
            k = k + 1;
        }
        assert(row@.take(n as int) =~= row@);
        let r = BitmapSet::Compact(b);
        assert forall|x: u64| compact_members(b).contains(x) implies x <= u32::MAX by {
            let j = choose|j: int| 0 <= j < row.len() && row@[j] == x;
            assert(row@[j] <= row@[n - 1]);
        }
        Ok(r)
    }

    /// The union of every set of a column. The result is compact when every
    /// set is, and wide otherwise.
    pub fn union_all(sets: &Vec<BitmapSet>) -> (r: BitmapSet)
        requires
            forall|i: int| 0 <= i < sets.len() ==> (#[trigger] sets[i]).wf(),
        ensures
            r.wf(),
            r@ == union_of(views(sets@)),
            (r is Wide) <==> exists|i: int| 0 <= i < sets.len() && (#[trigger] sets[i]) is Wide,
    {
        let mut all_compact = true;
        let mut i: usize = 0;
        while i < sets.len()
            invariant
                i <= sets.len(),
                all_compact <==> forall|j: int| 0 <= j < i ==> (#[trigger] sets[j]) is Compact,
            decreases sets.len() - i,
        {
            if !sets[i].is_compact() {
                all_compact = false;
            }
            i = i + 1;
        }
        if all_compact {
            let mut bs: Vec<RoaringBitmap> = Vec::new();
            let mut k: usize = 0;
            while k < sets.len()
                invariant
                    k <= sets.len(),
                    forall|j: int| 0 <= j < sets.len() ==> (#[trigger] sets[j]) is Compact,
                    bs.len() == k,
                    compact_views(bs@) =~= views(
                        sets@.take(k as int),
                    ),
                decreases sets.len() - k,
            {
                assert(sets@.take(k + 1 as int) =~= sets@.take(k as int).push(sets[k as int]));
                match &sets[k] {
                    BitmapSet::Compact(b) => {
                        let c = compact_clone(b);
                        assert(compact_members(c) == sets[k as int]@);
                        let ghost before = bs@;
                        bs.push(c);
                        assert forall|j: int| 0 <= j < bs.len() implies #[trigger] compact_views(
                            bs@,
                        )[j] == views(sets@.take(k + 1 as int))[j] by {
                            if j < k {
                                assert(bs@[j] == before[j]);
                                assert(compact_views(before)[j] == views(sets@.take(k as int))[j]);
                            }
                        }
                    },
                    BitmapSet::Wide(_) => {},
                }
                k = k + 1;
                assert(compact_views(bs@) =~= views(
                    sets@.take(k as int),
                ));
            }
            assert(sets@.take(sets.len() as int) =~= sets@);
            let r = BitmapSet::Compact(compact_union(bs));
            assert forall|x: u64| compact_members(r->Compact_0).contains(x) implies x <= u32::MAX by {
                lemma_union_of_contains(views(sets@), x);
                let j = choose|j: int| 0 <= j < views(sets@).len() && (#[trigger] views(sets@)[j]).contains(x);
                assert(sets[j].wf());
            }
            r
        } else {
            let mut ts: Vec<RoaringTreemap> = Vec::new();
            let mut k: usize = 0;
            while k < sets.len()
                invariant
                    k <= sets.len(),
                    forall|i: int| 0 <= i < sets.len() ==> (#[trigger] sets[i]).wf(),
                    ts.len() == k,
                    wide_views(ts@) =~= views(
                        sets@.take(k as int),
                    ),
                decreases sets.len() - k,
            {
                assert(sets@.take(k + 1 as int) =~= sets@.take(k as int).push(sets[k as int]));
                let w = sets[k].widen();
                let t = w.wide_inner();
                assert(wide_members(t) == sets[k as int]@);
                let ghost before = ts@;
                ts.push(t);
                assert forall|j: int| 0 <= j < ts.len() implies #[trigger] wide_views(ts@)[j]
                    == views(sets@.take(k + 1 as int))[j] by {
                    if j < k {
                        assert(ts@[j] == before[j]);
                        assert(wide_views(before)[j] == views(sets@.take(k as int))[j]);
                    }
                }
                k = k + 1;
                assert(wide_views(ts@) =~= views(
                    sets@.take(k as int),
                ));
            }
            assert(sets@.take(sets.len() as int) =~= sets@);
            BitmapSet::Wide(wide_union(ts))
        }
    }

    /// Encodes the set as a row of the tabular representation: its members in
    /// ascending order.
    pub fn to_row(&self) -> (r: Vec<u64>)
        ensures
            strictly_ascending(r@),
            r@.to_set() == self@,
            r@.len() == self@.len(),
    {
        let r = self.to_vec();
        assert(r@.to_set() =~= self@);
        r
    }
}

/// Encoding a set as a row and decoding the row gives the same set back: a
/// row that `to_row` returns is strictly ascending, so `from_sorted` accepts
/// it, and the set it decodes has the same members and cardinality, in
/// either representation.
pub proof fn lemma_row_round_trip(s: BitmapSet, row: Seq<u64>, decoded: BitmapSet)
    requires
        strictly_ascending(row),
        row.to_set() == s@,
        decoded@ == row.to_set(),
    ensures
        decoded@ == s@,
        decoded@.len() == s@.len(),
        row.len() == s@.len(),
{
    lemma_ascending_len(row);
}

/// The cardinality of each row of a column of sets.
pub fn rust_popcnt(column: &Vec<BitmapSet>) -> (r: Vec<u64>)
    ensures
        r@.len() == column@.len(),
        forall|i: int| 0 <= i < r@.len() ==> #[trigger] r@[i] == column@[i]@.len(),
{
    let mut r: Vec<u64> = Vec::new();
    let mut i: usize = 0;
    while i < column.len()
        invariant
            i <= column@.len(),
            r@.len() == i,
            forall|k: int| 0 <= k < i ==> #[trigger] r@[k] == column@[k]@.len(),
        decreases column@.len() - i,
    {
        r.push(column[i].len());
        i = i + 1;
    }
    r
}

/// The union of a whole column of sets, as a one-row column.
pub fn rust_bitmap_union(column: &Vec<BitmapSet>) -> (r: Vec<BitmapSet>)
    requires
        forall|i: int| 0 <= i < column@.len() ==> (#[trigger] column@[i]).wf(),
    ensures
        r@.len() == 1,
        r@[0].wf(),
        r@[0]@ == union_of(views(column@)),
{
    let mut r: Vec<BitmapSet> = Vec::new();
    r.push(BitmapSet::union_all(column));
    r
}

} // verus!
