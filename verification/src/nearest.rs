//! The walk through the tree of cities: the median of every range sits at its
//! midpoint, split on latitude at even depths. Where the walk goes is decided
//! here; the distances are measured outside, in floating point.

use vstd::prelude::*;

verus! {

/// What is known of the distances from the query.
pub struct Measure {
    /// Is the record nearer than the best one so far?
    pub closer: spec_fn(int, Option<int>) -> bool,
    /// Does the query lie below the record on this axis? The axis is the latitude
    /// where the flag is set.
    pub below: spec_fn(int, bool) -> bool,
    /// Is the query nearer to the record's line across this axis than to the best
    /// record so far?
    pub crosses: spec_fn(int, bool, Option<int>) -> bool,
}

pub open spec fn middle(lo: int, hi: int) -> int {
    lo + (hi - lo) / 2
}

/// The half of a range that the query lies in, or the other half.
pub open spec fn half(lo: int, hi: int, below: bool) -> (int, int) {
    if below {
        (lo, middle(lo, hi))
    } else {
        (middle(lo, hi) + 1, hi)
    }
}

/// The best record once a range has been searched.
pub open spec fn descend(m: Measure, lo: int, hi: int, lat: bool, best: Option<int>) -> Option<int>
    decreases hi - lo,
{
    if hi <= lo {
        best
    } else {
        let mid = middle(lo, hi);
        let best = if (m.closer)(mid, best) {
            Some(mid)
        } else {
            best
        };
        let below = (m.below)(mid, lat);
        let near = half(lo, hi, below);
        let far = half(lo, hi, !below);
        let best = descend(m, near.0, near.1, !lat, best);
        if (m.crosses)(mid, lat, best) {
            descend(m, far.0, far.1, !lat, best)
        } else {
            best
        }
    }
}

/// A range that has to be searched, or only where the query lies near the line
/// through `mid`.
#[derive(Clone, Copy)]
pub enum Todo {
    Range { lo: usize, hi: usize, lat: bool },
    Beyond { mid: usize, lo: usize, hi: usize, lat: bool },
}

/// What a `Search` stands for.
#[verifier::ext_equal]
pub struct Walk {
    pub todo: Seq<Todo>,
    pub best: Option<int>,
}

/// The best record once everything has been searched that is left, the last thing
/// first.
pub open spec fn outcome(m: Measure, todo: Seq<Todo>, best: Option<int>) -> Option<int>
    decreases todo.len(),
{
    if todo.len() == 0 {
        best
    } else {
        let best = match todo.last() {
            Todo::Range { lo, hi, lat } => descend(m, lo as int, hi as int, lat, best),
            Todo::Beyond { mid, lo, hi, lat } => if (m.crosses)(mid as int, lat, best) {
                descend(m, lo as int, hi as int, !lat, best)
            } else {
                best
            },
        };
        outcome(m, todo.drop_last(), best)
    }
}

/// What is left once the record in the middle of a range has been measured: the half
/// that the query lies in, and before it the half beyond the line, as far as there is
/// anything in them.
pub open spec fn split_up(rest: Seq<Todo>, lo: int, hi: int, lat: bool, below: bool) -> Seq<Todo> {
    let near = half(lo, hi, below);
    let far = half(lo, hi, !below);
    let with_far = if far.0 < far.1 {
        rest.push(
            Todo::Beyond {
                mid: middle(lo, hi) as usize,
                lo: far.0 as usize,
                hi: far.1 as usize,
                lat,
            },
        )
    } else {
        rest
    };
    if near.0 < near.1 {
        with_far.push(Todo::Range { lo: near.0 as usize, hi: near.1 as usize, lat: !lat })
    } else {
        with_far
    }
}

/// How many measurements a range can still need: two for every record in it, and one
/// for the line before it.
pub open spec fn effort(t: Todo) -> int {
    match t {
        Todo::Range { lo, hi, .. } => 2 * (hi - lo),
        Todo::Beyond { lo, hi, .. } => 2 * (hi - lo) + 1,
    }
}

/// An upper bound on the measurements that are still needed.
pub open spec fn work(todo: Seq<Todo>) -> int
    decreases todo.len(),
{
    if todo.len() == 0 {
        0
    } else {
        work(todo.drop_last()) + effort(todo.last())
    }
}

/// Where every range holds something, nothing is left only when no measurement is.
pub proof fn work_is_bounded(todo: Seq<Todo>, count: int)
    requires
        forall|i: int| 0 <= i < todo.len() ==> within(#[trigger] todo[i], count),
    ensures
        work(todo) >= todo.len(),
    decreases todo.len(),
{
    if todo.len() > 0 {
        let rest = todo.drop_last();
        assert forall|i: int| 0 <= i < rest.len() implies within(#[trigger] rest[i], count) by {
            assert(rest[i] == todo[i]);
        }
        work_is_bounded(rest, count);
        assert(within(todo[todo.len() - 1], count));
    }
}

/// What has to be measured next.
pub enum Look {
    /// Is the record `at` nearer than the best one, and does the query lie below it?
    Point { at: usize, lat: bool, best: Option<usize> },
    /// Is the query nearer to the line through the record `at` than to the best one?
    Line { at: usize, lat: bool, best: Option<usize> },
    Found(Option<usize>),
}

pub struct Search {
    todo: Vec<Todo>,
    best: Option<usize>,
    count: usize,
}

pub open spec fn within(t: Todo, count: int) -> bool {
    match t {
        Todo::Range { lo, hi, .. } => lo < hi <= count,
        Todo::Beyond { mid, lo, hi, .. } => mid < count && lo < hi <= count,
    }
}

pub open spec fn place_of(i: Option<usize>) -> Option<int> {
    match i {
        Some(i) => Some(i as int),
        None => None,
    }
}

impl View for Search {
    type V = Walk;

    closed spec fn view(&self) -> Walk {
        Walk { todo: self.todo@, best: place_of(self.best) }
    }
}

impl Search {
    pub closed spec fn size(&self) -> nat {
        self.count as nat
    }

    pub open spec fn wf(&self) -> bool {
        &&& forall|i: int|
            0 <= i < self@.todo.len() ==> within(#[trigger] self@.todo[i], self.size() as int)
        &&& self@.best matches Some(b) ==> 0 <= b < self.size()
    }

    /// A search through `count` records.
    pub fn new(count: usize) -> (r: Search)
        ensures
            r.wf(),
            r.size() == count,
            r@.best is None,
            work(r@.todo) == 2 * count,
            forall|m: Measure| #[trigger] r.ends_with(m, descend(m, 0, count as int, true, None)),
    {
        let mut todo: Vec<Todo> = Vec::new();
        let ghost empty = todo@;
        if count > 0 {
            todo.push(Todo::Range { lo: 0, hi: count, lat: true });
        }
        let r = Search { todo, best: None, count };
        proof {
            if count > 0 {
                assert(r@.todo.drop_last() =~= empty);
            }
            reveal_with_fuel(work, 2);
            assert forall|m: Measure| #[trigger]
                r.ends_with(m, descend(m, 0, count as int, true, None)) by {
                if count > 0 {
                    assert(r@.todo.drop_last() =~= empty);
                }
                reveal_with_fuel(outcome, 2);
            }
        }
        r
    }

    /// Whether this is the record that the search ends with, if the distances are
    /// these.
    pub open spec fn ends_with(&self, m: Measure, found: Option<int>) -> bool {
        outcome(m, self@.todo, self@.best) == found
    }

    pub fn look(&self) -> (r: Look)
        requires
            self.wf(),
        ensures
            match r {
                Look::Point { at, lat, best } => {
                    &&& at < self.size()
                    &&& self@.todo.len() > 0
                    &&& self@.todo.last() matches Todo::Range { lo, hi, lat: l }
                    &&& at == middle(lo as int, hi as int)
                    &&& lat == l
                    &&& place_of(best) == self@.best
                },
                Look::Line { at, lat, best } => {
                    &&& at < self.size()
                    &&& self@.todo.len() > 0
                    &&& self@.todo.last() matches Todo::Beyond { mid, lat: l, .. }
                    &&& at == mid
                    &&& lat == l
                    &&& place_of(best) == self@.best
                },
                Look::Found(best) => {
                    &&& place_of(best) == self@.best
                    &&& forall|m: Measure| #[trigger] self.ends_with(m, place_of(best))
                },
            },
    {
        let n = self.todo.len();
        if n == 0 {
            return Look::Found(self.best);
        }
        proof {
            assert(within(self@.todo[n - 1], self.size() as int));
        }
        match self.todo[n - 1] {
            Todo::Range { lo, hi, lat } => Look::Point {
                at: lo + (hi - lo) / 2,
                lat,
                best: self.best,
            },
            Todo::Beyond { mid, lat, .. } => Look::Line { at: mid, lat, best: self.best },
        }
    }

    /// The answer to `Look::Point`.
    pub fn point(&mut self, closer: bool, below: bool)
        requires
            old(self).wf(),
            old(self)@.todo.len() > 0,
            old(self)@.todo.last() is Range,
        ensures
            final(self).wf(),
            final(self).size() == old(self).size(),
            old(self)@.todo.last() matches Todo::Range { lo, hi, lat } && ({
                let mid = middle(lo as int, hi as int);
                &&& final(self)@.best == (if closer {
                    Some(mid)
                } else {
                    old(self)@.best
                })
                &&& final(self)@.todo == split_up(
                    old(self)@.todo.drop_last(),
                    lo as int,
                    hi as int,
                    lat,
                    below,
                )
                &&& work(final(self)@.todo) < work(old(self)@.todo)
                &&& forall|m: Measure, found: Option<int>|
                    (m.closer)(mid, old(self)@.best) == closer && (m.below)(mid, lat) == below
                        && old(self).ends_with(m, found) ==> #[trigger] final(self).ends_with(
                        m,
                        found,
                    )
            }),
    {
        let ghost before = self@;
        proof {
            assert(within(before.todo.last(), self.size() as int));
        }
        match self.todo.pop() {
            Some(Todo::Range { lo, hi, lat }) => {
                let ghost rest = self.todo@;
                assert(rest =~= before.todo.drop_last());
                let mid = lo + (hi - lo) / 2;
                if closer {
                    self.best = Some(mid);
                }
                let (near, far) = if below {
                    ((lo, mid), (mid + 1, hi))
                } else {
                    ((mid + 1, hi), (lo, mid))
                };
                if far.0 < far.1 {
                    self.todo.push(Todo::Beyond { mid, lo: far.0, hi: far.1, lat });
                }
                let ghost with_far = self.todo@;
                if near.0 < near.1 {
                    self.todo.push(Todo::Range { lo: near.0, hi: near.1, lat: !lat });
                }
                proof {
                    if far.0 < far.1 {
                        assert(with_far.drop_last() =~= rest);
                    }
                    if near.0 < near.1 {
                        assert(self.todo@.drop_last() =~= with_far);
                    }
                    reveal_with_fuel(work, 2);
                    assert forall|m: Measure, found: Option<int>|
                        (m.closer)(mid as int, before.best) == closer && (m.below)(mid as int, lat)
                            == below && outcome(m, before.todo, before.best)
                            == found implies #[trigger] self.ends_with(m, found) by {
                        let best = self@.best;
                        let best_near = descend(
                            m,
                            near.0 as int,
                            near.1 as int,
                            !lat,
                            best,
                        );
                        if far.0 < far.1 {
                            assert(with_far.drop_last() =~= rest);
                        }
                        if near.0 < near.1 {
                            assert(self@.todo.drop_last() =~= with_far);
                        }
                        assert(outcome(m, self@.todo, best) == outcome(m, with_far, best_near));
                        assert(half(lo as int, hi as int, below) == (near.0 as int, near.1 as int));
                        assert(half(lo as int, hi as int, !below) == (far.0 as int, far.1 as int));
                        let all = descend(m, lo as int, hi as int, lat, before.best);
                        let best_far = descend(m, far.0 as int, far.1 as int, !lat, best_near);
                        assert(all == if (m.crosses)(mid as int, lat, best_near) {
                            best_far
                        } else {
                            best_near
                        });
                        assert(outcome(m, with_far, best_near) == outcome(m, rest, all));
                        assert(outcome(m, before.todo, before.best) == outcome(m, rest, all));
                    }
                }
            },
            _ => {},
        }
    }

    /// The answer to `Look::Line`.
    pub fn line(&mut self, crosses: bool)
        requires
            old(self).wf(),
            old(self)@.todo.len() > 0,
            old(self)@.todo.last() is Beyond,
        ensures
            final(self).wf(),
            final(self).size() == old(self).size(),
            final(self)@.best == old(self)@.best,
            old(self)@.todo.last() matches Todo::Beyond { mid, lo, hi, lat } && ({
                let rest = old(self)@.todo.drop_last();
                &&& final(self)@.todo == (if crosses {
                    rest.push(Todo::Range { lo, hi, lat: !lat })
                } else {
                    rest
                })
                &&& work(final(self)@.todo) < work(old(self)@.todo)
                &&& forall|m: Measure, found: Option<int>|
                    (m.crosses)(mid as int, lat, old(self)@.best) == crosses && old(
                        self,
                    ).ends_with(m, found) ==> #[trigger] final(self).ends_with(m, found)
            }),
    {
        let ghost before = self@;
        proof {
            assert(within(before.todo.last(), self.size() as int));
        }
        match self.todo.pop() {
            Some(Todo::Beyond { mid, lo, hi, lat }) => {
                let ghost rest = self.todo@;
                assert(rest =~= before.todo.drop_last());
                if crosses {
                    self.todo.push(Todo::Range { lo, hi, lat: !lat });
                    assert(self.todo@.drop_last() =~= rest);
                }
            },
            _ => {},
        }
    }
}

/// What a table of distances has to say for the walk to find the nearest record:
/// `closer` compares ranks, and where the query does not come near the line through
/// a record, no record of the half beyond the line ranks before the best one.
pub open spec fn ranks(m: Measure, rank: spec_fn(int) -> int, lo: int, hi: int) -> bool {
    &&& forall|i: int, b: Option<int>|
        lo <= i < hi ==> #[trigger] (m.closer)(i, b) == (b matches Some(j) ==> rank(i) < rank(j))
}

/// Whether leaving out the half beyond a line is right, in this range and in every
/// range inside it.
pub open spec fn prunes_well(
    m: Measure,
    rank: spec_fn(int) -> int,
    lo: int,
    hi: int,
    lat: bool,
) -> bool
    decreases hi - lo,
{
    hi <= lo || {
        let mid = middle(lo, hi);
        let below = (m.below)(mid, lat);
        let near = half(lo, hi, below);
        let far = half(lo, hi, !below);
        &&& forall|b: int, i: int|
            far.0 <= i < far.1 && !#[trigger] (m.crosses)(mid, lat, Some(b)) ==> rank(b)
                <= #[trigger] rank(i)
        &&& prunes_well(m, rank, near.0, near.1, !lat)
        &&& prunes_well(m, rank, far.0, far.1, !lat)
    }
}

/// No record of the range ranks before the best one.
pub open spec fn is_least(rank: spec_fn(int) -> int, best: Option<int>, lo: int, hi: int) -> bool {
    forall|i: int| lo <= i < hi ==> best is Some && rank(best.unwrap()) <= #[trigger] rank(i)
}

/// The walk finds what a scan of all records finds: a record that no other one
/// ranks before.
pub proof fn walks_agree_with_a_scan(
    m: Measure,
    rank: spec_fn(int) -> int,
    lo: int,
    hi: int,
    lat: bool,
    best: Option<int>,
)
    requires
        ranks(m, rank, lo, hi),
        prunes_well(m, rank, lo, hi, lat),
    ensures
        ({
            let found = descend(m, lo, hi, lat, best);
            &&& is_least(rank, found, lo, hi)
            &&& best matches Some(b) ==> found is Some && rank(found.unwrap()) <= rank(b)
            &&& found matches Some(f) ==> found == best || lo <= f < hi
        }),
    decreases hi - lo,
{
    if lo < hi {
        let mid = middle(lo, hi);
        let first = if (m.closer)(mid, best) {
            Some(mid)
        } else {
            best
        };
        let below = (m.below)(mid, lat);
        let near = half(lo, hi, below);
        let far = half(lo, hi, !below);
        walks_agree_with_a_scan(m, rank, near.0, near.1, !lat, first);
        let second = descend(m, near.0, near.1, !lat, first);
        walks_agree_with_a_scan(m, rank, far.0, far.1, !lat, second);
        let found = descend(m, lo, hi, lat, best);
        assert(first is Some && rank(first.unwrap()) <= rank(mid));
        assert forall|i: int| lo <= i < hi implies found is Some && rank(found.unwrap())
            <= #[trigger] rank(i) by {
            if i != mid && far.0 <= i < far.1 && !(m.crosses)(mid, lat, second) {
                assert(rank(second.unwrap()) <= rank(i));
            }
        }
    }
}

/// Where a record or the query lies, in whole steps of some length.
pub struct Spot {
    pub lat: int,
    pub lon: int,
}

pub open spec fn along(s: Spot, lat: bool) -> int {
    if lat {
        s.lat
    } else {
        s.lon
    }
}

pub open spec fn square(x: int) -> int {
    x * x
}

/// The square of the distance between two spots.
pub open spec fn apart(a: Spot, b: Spot) -> int {
    square(a.lat - b.lat) + square(a.lon - b.lon)
}

/// How the records lie to the query: `closer` compares their distances, and a line
/// is crossed where it is nearer to the query than the best record is.
pub open spec fn measure_of(at: spec_fn(int) -> Spot, query: Spot) -> Measure {
    Measure {
        closer: |i: int, b: Option<int>|
            (b matches Some(j) ==> apart(at(i), query) < apart(at(j), query)),
        below: |i: int, lat: bool| along(query, lat) < along(at(i), lat),
        crosses: |i: int, lat: bool, b: Option<int>|
            (b matches Some(j) ==> square(along(query, lat) - along(at(i), lat)) < apart(
                at(j),
                query,
            )),
    }
}

/// Whether the records of a range are in the order of the tree: those before the
/// middle do not lie above it on the axis of the range, those behind it not below,
/// and so on inside the halves on the other axis.
pub open spec fn in_tree_order(at: spec_fn(int) -> Spot, lo: int, hi: int, lat: bool) -> bool
    decreases hi - lo,
{
    hi <= lo || {
        let mid = middle(lo, hi);
        &&& forall|i: int| lo <= i < mid ==> along(#[trigger] at(i), lat) <= along(at(mid), lat)
        &&& forall|i: int| mid < i < hi ==> along(at(mid), lat) <= along(#[trigger] at(i), lat)
        &&& in_tree_order(at, lo, mid, !lat)
        &&& in_tree_order(at, mid + 1, hi, !lat)
    }
}

/// A longer step has the greater square.
proof fn lemma_square(x: int, y: int)
    requires
        0 <= x <= y || y <= x <= 0,
    ensures
        0 <= square(x) <= square(y),
{
    assert(0 <= x * x <= y * y) by (nonlinear_arith)
        requires
            0 <= x <= y || y <= x <= 0,
    ;
}

/// In records that are in the order of the tree, leaving out the half beyond a line is
/// right wherever the line is not nearer to the query than the best record.
pub proof fn ordered_trees_prune_well(
    at: spec_fn(int) -> Spot,
    query: Spot,
    lo: int,
    hi: int,
    lat: bool,
)
    requires
        in_tree_order(at, lo, hi, lat),
    ensures
        prunes_well(measure_of(at, query), |i: int| apart(at(i), query), lo, hi, lat),
    decreases hi - lo,
{
    if lo < hi {
        let m = measure_of(at, query);
        let rank = |i: int| apart(at(i), query);
        let mid = middle(lo, hi);
        let below = (m.below)(mid, lat);
        let far = half(lo, hi, !below);
        ordered_trees_prune_well(at, query, lo, mid, !lat);
        ordered_trees_prune_well(at, query, mid + 1, hi, !lat);
        assert forall|b: int, i: int|
            far.0 <= i < far.1 && !#[trigger] (m.crosses)(mid, lat, Some(b)) implies rank(b)
            <= #[trigger] rank(i) by {
            let line = along(at(mid), lat) - along(query, lat);
            let here = along(at(i), lat) - along(query, lat);
            lemma_square(line, here);
            lemma_square(-line, -here);
            assert(square(-line) == square(line)) by (nonlinear_arith)
                requires
                    square(-line) == (-line) * (-line),
                    square(line) == line * line,
            ;
            lemma_square(0, at(i).lat - query.lat);
            lemma_square(0, at(i).lon - query.lon);
            assert(square(here) <= apart(at(i), query));
        }
    }
}

/// The walk through records in the order of the tree ends at one that none is nearer
/// to the query than.
pub proof fn the_tree_finds_the_nearest(at: spec_fn(int) -> Spot, query: Spot, count: int)
    requires
        0 <= count,
        in_tree_order(at, 0, count, true),
    ensures
        match descend(measure_of(at, query), 0, count, true, None) {
            Some(found) => {
                &&& 0 <= found < count
                &&& forall|i: int|
                    0 <= i < count ==> apart(at(found), query) <= apart(#[trigger] at(i), query)
            },
            None => count == 0,
        },
{
    let m = measure_of(at, query);
    let rank = |i: int| apart(at(i), query);
    ordered_trees_prune_well(at, query, 0, count, true);
    walks_agree_with_a_scan(m, rank, 0, count, true, None);
    let found = descend(m, 0, count, true, None);
    assert forall|i: int| 0 <= i < count implies found is Some && apart(
        at(found.unwrap()),
        query,
    ) <= apart(#[trigger] at(i), query) by {
        assert(rank(found.unwrap()) <= rank(i));
    }
    if count > 0 {
        assert(found is Some) by {
            assert(rank(found.unwrap()) <= rank(0));
        }
    }
}

} // verus!
