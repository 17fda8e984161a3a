//! Piece selections: ranges of pieces to download, kept in order of
//! priority (highest first), then of first piece (lowest first).

use vstd::prelude::*;

verus! {

broadcast use vstd::seq_lib::to_multiset_insert;

/// A range of pieces to download.
#[derive(Debug, Clone, Copy)]
pub struct Selection {
    pub from: usize,
    pub to: usize,
    pub offset: usize,
    pub priority: i32,
    pub is_stream_selection: bool,
}

impl Selection {
    /// The selection of pieces `from..=to` at `priority`, with offset 0.
    pub fn new(from: usize, to: usize, priority: i32, is_stream_selection: bool) -> (r: Selection)
        ensures
            r == (Selection { from, to, offset: 0, priority, is_stream_selection }),
    {
        Selection { from, to, offset: 0, priority, is_stream_selection }
    }
}

/// `a` may stand before `b`: a higher priority, or the same priority and a
/// first piece no later.
pub open spec fn sel_le(a: Selection, b: Selection) -> bool {
    a.priority > b.priority || (a.priority == b.priority && a.from <= b.from)
}

/// Every selection may stand before every later one.
pub open spec fn sorted(s: Seq<Selection>) -> bool {
    forall|i: int, j: int| 0 <= i < j < s.len() ==> sel_le(#[trigger] s[i], #[trigger] s[j])
}

/// Where a stable insertion puts `x` into `s`: after the last selection that
/// may stand before it.
pub open spec fn sorted_pos(s: Seq<Selection>, x: Selection) -> nat
    decreases s.len(),
{
    if s.len() == 0 {
        0
    } else if sel_le(s.last(), x) {
        s.len()
    } else {
        sorted_pos(s.drop_last(), x)
    }
}

/// `s` with `x` inserted stably.
pub open spec fn insert_sorted(s: Seq<Selection>, x: Selection) -> Seq<Selection> {
    s.insert(sorted_pos(s, x) as int, x)
}

/// The stable sort of `s` by `sel_le`: each selection inserted in turn after
/// every selection before it that may stand before it, so that selections
/// with the same priority and first piece keep their order.
pub open spec fn stable_sort(s: Seq<Selection>) -> Seq<Selection>
    decreases s.len(),
{
    if s.len() == 0 {
        Seq::empty()
    } else {
        insert_sorted(stable_sort(s.drop_last()), s.last())
    }
}

/// Does `s` match the selection that `remove` takes out?
pub open spec fn matches_range(s: Selection, from: usize, to: usize, is_stream_selection: bool) -> bool {
    s.from == from && s.to == to && s.is_stream_selection == is_stream_selection
}

/// The position of `x` in a sorted list splits it into those that may stand
/// before `x` and those that may not.
proof fn lemma_sorted_pos(s: Seq<Selection>, x: Selection)
    requires
        sorted(s),
    ensures
        sorted_pos(s, x) <= s.len(),
        forall|i: int| 0 <= i < sorted_pos(s, x) ==> sel_le(#[trigger] s[i], x),
        forall|j: int| sorted_pos(s, x) <= j < s.len() ==> !sel_le(#[trigger] s[j], x),
    decreases s.len(),
{
    if s.len() > 0 {
        let p = s.drop_last();
        assert(sorted(p));
        lemma_sorted_pos(p, x);
        if sel_le(s.last(), x) {
            assert forall|i: int| 0 <= i < s.len() implies sel_le(#[trigger] s[i], x) by {
                if i < s.len() - 1 {
                    assert(sel_le(s[i], s[s.len() - 1]));
                }
            }
        } else {
            assert forall|i: int| 0 <= i < sorted_pos(s, x) implies sel_le(#[trigger] s[i], x) by {
                assert(p[i] == s[i]);
            }
            assert forall|j: int| sorted_pos(s, x) <= j < s.len() implies !sel_le(#[trigger] s[j], x) by {
                if j < s.len() - 1 {
                    assert(p[j] == s[j]);
                }
            }
        }
    }
}

/// Inserting stably keeps a list sorted and adds the selection to it.
proof fn lemma_insert_sorted(s: Seq<Selection>, x: Selection)
    requires
        sorted(s),
    ensures
        sorted(insert_sorted(s, x)),
        insert_sorted(s, x).to_multiset() == s.to_multiset().insert(x),
{
    lemma_sorted_pos(s, x);
    let k = sorted_pos(s, x) as int;
    let r = insert_sorted(s, x);
    s.insert_ensures(k, x);
    assert forall|i: int, j: int| 0 <= i < j < r.len() implies sel_le(#[trigger] r[i], #[trigger] r[j]) by {
        if j < k {
            assert(sel_le(s[i], s[j]));
        } else if j == k {
            assert(sel_le(s[i], x));
        } else if i < k {
            assert(sel_le(s[i], s[j - 1]));
        } else if i == k {
            assert(!sel_le(s[j - 1], x));
        } else {
            assert(sel_le(s[i - 1], s[j - 1]));
        }
    }
}

/// The stable sort of a list is sorted and holds the same selections.
pub proof fn stable_sort_sorts(s: Seq<Selection>)
    ensures
        sorted(stable_sort(s)),
        stable_sort(s).to_multiset() == s.to_multiset(),
    decreases s.len(),
{
    broadcast use vstd::seq_lib::to_multiset_build;

    if s.len() > 0 {
        stable_sort_sorts(s.drop_last());
        lemma_insert_sorted(stable_sort(s.drop_last()), s.last());
        assert(s.drop_last().push(s.last()) =~= s);
    } else {
        assert(s =~= Seq::<Selection>::empty());
    }
}

/// Sorting a list that is already sorted leaves it as it is.
pub proof fn stable_sort_of_sorted(s: Seq<Selection>)
    requires
        sorted(s),
    ensures
        stable_sort(s) == s,
    decreases s.len(),
{
    if s.len() > 0 {
        let p = s.drop_last();
        assert(sorted(p));
        stable_sort_of_sorted(p);
        if p.len() > 0 {
            assert(sel_le(p.last(), s.last()));
        }
        assert(sorted_pos(p, s.last()) == p.len());
        assert(p.insert(p.len() as int, s.last()) =~= s);
    }
}

/// Whether a selection has the given priority and first piece.
pub open spec fn key_is(priority: i32, from: usize) -> spec_fn(Selection) -> bool {
    |x: Selection| x.priority == priority && x.from == from
}

/// Sorting is stable: the selections with the same priority and first
/// piece come out in the order they went in.
pub proof fn stable_sort_is_stable(s: Seq<Selection>, priority: i32, from: usize)
    ensures
        stable_sort(s).filter(key_is(priority, from)) == s.filter(key_is(priority, from)),
    decreases s.len(),
{
    let pred = key_is(priority, from);
    if s.len() == 0 {
        assert(stable_sort(s) =~= s);
    } else {
        let init = s.drop_last();
        let x = s.last();
        stable_sort_is_stable(init, priority, from);
        stable_sort_sorts(init);
        let ss = stable_sort(init);
        lemma_sorted_pos(ss, x);
        let p = sorted_pos(ss, x) as int;
        let head = ss.subrange(0, p);
        let tail = ss.subrange(p, ss.len() as int);
        assert(insert_sorted(ss, x) =~= head + seq![x] + tail);
        assert(ss =~= head + tail);
        Seq::filter_distributes_over_add(head + seq![x], tail, pred);
        Seq::filter_distributes_over_add(head, seq![x], pred);
        Seq::filter_distributes_over_add(head, tail, pred);
        assert(seq![x] =~= Seq::<Selection>::empty().push(x));
        Seq::<Selection>::empty().lemma_filter_push(x, pred);
        assert(Seq::<Selection>::empty().filter(pred) =~= Seq::<Selection>::empty()) by {
            reveal(Seq::filter);
        }
        assert(init.push(x) =~= s);
        init.lemma_filter_push(x, pred);
        if pred(x) {
            assert(tail.all(|e: Selection| !pred(e))) by {
                assert forall|i: int| 0 <= i < tail.len() implies !pred(#[trigger] tail[i]) by {
                    assert(tail[i] == ss[p + i]);
                    assert(!sel_le(ss[p + i], x));
                }
            }
            tail.lemma_all_neg_filter_empty(pred);
            assert(tail.filter(pred) =~= Seq::<Selection>::empty());
            assert(stable_sort(s).filter(pred) =~= ss.filter(pred).push(x));
        } else {
            assert(stable_sort(s).filter(pred) =~= ss.filter(pred));
        }
    }
}

/// The selections that `remove(from, to, stream)` keeps.
pub open spec fn outside_range(from: usize, to: usize, is_stream_selection: bool) -> spec_fn(Selection) -> bool {
    |e: Selection| !matches_range(e, from, to, is_stream_selection)
}

/// Filtering keeps a list whole when every item passes.
proof fn lemma_filter_all_pass(t: Seq<Selection>, pred: spec_fn(Selection) -> bool)
    requires
        forall|i: int| 0 <= i < t.len() ==> pred(#[trigger] t[i]),
    ensures
        t.filter(pred) == t,
    decreases t.len(),
{
    if t.len() == 0 {
        assert(t.filter(pred) =~= t) by {
            reveal(Seq::filter);
        }
    } else {
        let init = t.drop_last();
        assert forall|i: int| 0 <= i < init.len() implies pred(#[trigger] init[i]) by {
            assert(init[i] == t[i]);
        }
        lemma_filter_all_pass(init, pred);
        init.lemma_filter_push(t.last(), pred);
        assert(init.push(t.last()) =~= t);
    }
}

/// Removing the range of a selection just inserted into a sorted list that
/// held no selection of that range gives the list back.
pub proof fn remove_undoes_insert(s: Seq<Selection>, x: Selection)
    requires
        sorted(s),
        forall|j: int| 0 <= j < s.len() ==> !matches_range(#[trigger] s[j], x.from, x.to, x.is_stream_selection),
    ensures
        stable_sort(s.push(x)).filter(outside_range(x.from, x.to, x.is_stream_selection)) == s,
{
    let pred = outside_range(x.from, x.to, x.is_stream_selection);
    stable_sort_of_sorted(s);
    assert(s.push(x).drop_last() =~= s);
    assert(stable_sort(s.push(x)) == insert_sorted(s, x));
    lemma_sorted_pos(s, x);
    let p = sorted_pos(s, x) as int;
    let head = s.subrange(0, p);
    let tail = s.subrange(p, s.len() as int);
    assert(insert_sorted(s, x) =~= head + seq![x] + tail);
    Seq::filter_distributes_over_add(head + seq![x], tail, pred);
    Seq::filter_distributes_over_add(head, seq![x], pred);
    assert(seq![x] =~= Seq::<Selection>::empty().push(x));
    Seq::<Selection>::empty().lemma_filter_push(x, pred);
    assert(Seq::<Selection>::empty().filter(pred) =~= Seq::<Selection>::empty()) by {
        reveal(Seq::filter);
    }
    assert forall|i: int| 0 <= i < head.len() implies pred(#[trigger] head[i]) by {
        assert(head[i] == s[i]);
    }
    assert forall|i: int| 0 <= i < tail.len() implies pred(#[trigger] tail[i]) by {
        assert(tail[i] == s[p + i]);
    }
    lemma_filter_all_pass(head, pred);
    lemma_filter_all_pass(tail, pred);
    assert(head + tail =~= s);
}

/// Keeping some selections of a sorted list leaves it sorted.
pub proof fn sorted_filter(s: Seq<Selection>, pred: spec_fn(Selection) -> bool)
    requires
        sorted(s),
    ensures
        sorted(s.filter(pred)),
    decreases s.len(),
{
    if s.len() == 0 {
        assert(s.filter(pred) =~= Seq::<Selection>::empty()) by {
            reveal(Seq::filter);
        }
    } else {
        let init = s.drop_last();
        let x = s.last();
        assert(sorted(init));
        sorted_filter(init, pred);
        init.lemma_filter_push(x, pred);
        assert(init.push(x) =~= s);
        if pred(x) {
            let f = init.filter(pred);
            assert forall|i: int, j: int| 0 <= i < j < f.push(x).len() implies sel_le(#[trigger] f.push(x)[i], #[trigger] f.push(x)[j]) by {
                if j == f.len() {
                    assert(f.contains(f[i]));
                    init.lemma_filter_contains_rev(pred, f[i]);
                    let k = choose|k: int| 0 <= k < init.len() && init[k] == f[i];
                    assert(sel_le(s[k], s[s.len() - 1]));
                } else {
                    assert(f.push(x)[i] == f[i] && f.push(x)[j] == f[j]);
                }
            }
        }
    }
}

/// The selections of a torrent, in the order `sort` gives them.
pub struct Selections {
    selections: Vec<Selection>,
}

impl View for Selections {
    type V = Seq<Selection>;

    closed spec fn view(&self) -> Seq<Selection> {
        self.selections@
    }
}

impl Selections {
    /// No selections.
    pub fn new() -> (r: Selections)
        ensures
            r@ == Seq::<Selection>::empty(),
    {
        Selections { selections: Vec::new() }
    }

    /// Adds a selection, then sorts.
    pub fn insert(&mut self, selection: Selection)
        ensures
            final(self)@ == stable_sort(old(self)@.push(selection)),
            sorted(final(self)@),
    {
        self.selections.push(selection);
        self.sort();
        proof {
            stable_sort_sorts(old(self)@.push(selection));
        }
    }

    /// Removes every selection of pieces `from..=to` with the given kind.
    pub fn remove(&mut self, from: usize, to: usize, is_stream_selection: bool)
        ensures
            final(self)@ == old(self)@.filter(|s: Selection| !matches_range(s, from, to, is_stream_selection)),
            sorted(old(self)@) ==> sorted(final(self)@),
    {
        let ghost keep = |s: Selection| !matches_range(s, from, to, is_stream_selection);
        let mut kept: Vec<Selection> = Vec::new();
        let mut i: usize = 0;
        while i < self.selections.len()
            invariant
                0 <= i <= self.selections@.len(),
                keep == (|s: Selection| !matches_range(s, from, to, is_stream_selection)),
                kept@ == self.selections@.subrange(0, i as int).filter(keep),
            decreases self.selections@.len() - i,
        {
            let s = self.selections[i];
            proof {
                assert(self.selections@.subrange(0, i + 1) =~= self.selections@.subrange(0, i as int).push(s));
                self.selections@.subrange(0, i as int).lemma_filter_push(s, keep);
            }
            if !(s.from == from && s.to == to && s.is_stream_selection == is_stream_selection) {
                kept.push(s);
            }
            i = i + 1;
        }
        proof {
            assert(self.selections@.subrange(0, self.selections@.len() as int) =~= self.selections@);
            if sorted(self.selections@) {
                sorted_filter(self.selections@, keep);
            }
        }
        self.selections = kept;
    }

    /// Removes every selection.
    pub fn clear(&mut self)
        ensures
            final(self)@ == Seq::<Selection>::empty(),
    {
        self.selections.clear();
    }

    /// The number of selections.
    pub fn len(&self) -> (r: usize)
        ensures
            r == self@.len(),
    {
        self.selections.len()
    }

    /// Whether there are no selections.
    pub fn is_empty(&self) -> (r: bool)
        ensures
            r == (self@.len() == 0),
    {
        self.selections.len() == 0
    }

    /// The selection at `index`, if there is one.
    pub fn get(&self, index: usize) -> (r: Option<&Selection>)
        ensures
            r == (if index < self@.len() {
                Some(&self@[index as int])
            } else {
                None
            }),
    {
        if index < self.selections.len() {
            Some(&self.selections[index])
        } else {
            None
        }
    }

    /// The selections in order.
    pub fn iter(&self) -> (r: std::slice::Iter<'_, Selection>)
        ensures
            vstd::std_specs::slice::into_iter_elts(r) == self@,
    {
        broadcast use vstd::std_specs::slice::axiom_spec_slice_iter;

        let it = self.selections.as_slice().iter();
        proof {
            assert(self.selections@.map_values(|s: Selection| &s).unref() =~= self.selections@);
        }
        it
    }

    /// Sorts the selections stably: highest priority first, then lowest
    /// first piece.
    pub fn sort(&mut self)
        ensures
            final(self)@ == stable_sort(old(self)@),
    {
        let mut out: Vec<Selection> = Vec::new();
        let mut i: usize = 0;
        while i < self.selections.len()
            invariant
                0 <= i <= self.selections@.len(),
                out@ == stable_sort(self.selections@.subrange(0, i as int)),
            decreases self.selections@.len() - i,
        {
            let x = self.selections[i];
            let mut k: usize = out.len();
            proof {
                assert(out@.subrange(0, k as int) =~= out@);
            }
            while k > 0 && !(out[k - 1].priority > x.priority || (out[k - 1].priority == x.priority
                && out[k - 1].from <= x.from))
                invariant
                    k <= out@.len(),
                    sorted_pos(out@, x) == sorted_pos(out@.subrange(0, k as int), x),
                decreases k,
            {
                proof {
                    assert(out@.subrange(0, k as int).drop_last() =~= out@.subrange(0, k - 1));
                }
                k = k - 1;
            }
            proof {
                assert(out@.subrange(0, out@.len() as int) =~= out@);
                if k > 0 {
                    assert(out@.subrange(0, k as int).last() == out@[k - 1]);
                }
                assert(self.selections@.subrange(0, i + 1).drop_last() =~= self.selections@.subrange(0, i as int));
            }
            out.insert(k, x);
            i = i + 1;
        }
        proof {
            assert(self.selections@.subrange(0, self.selections@.len() as int) =~= self.selections@);
        }
        self.selections = out;
    }

    /// Swaps the selections at `i` and `j` when both exist.
    pub fn swap(&mut self, i: usize, j: usize)
        ensures
            final(self)@ == (if i < old(self)@.len() && j < old(self)@.len() {
                old(self)@.update(i as int, old(self)@[j as int]).update(j as int, old(self)@[i as int])
            } else {
                old(self)@
            }),
    {
        if i < self.selections.len() && j < self.selections.len() {
            let a = self.selections[i];
            let b = self.selections[j];
            self.selections.set(i, b);
            self.selections.set(j, a);
        }
    }
}

} // verus!
