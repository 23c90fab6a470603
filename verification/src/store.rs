//! The model of the cell store: cells as plain values, what creating and
//! updating do to them, and the order in which they are assembled.

use vstd::prelude::*;

verus! {

/// A cell as plain values.
pub struct CellView {
    pub fragment: u32,
    pub index: u32,
    pub contents: Seq<char>,
}

/// Whether some cell of `cells` has the identity `fragment`.
pub open spec fn has_fragment(cells: Seq<CellView>, fragment: u32) -> bool {
    exists|i: int| 0 <= i < cells.len() && cells[i].fragment == fragment
}

/// Where the cell with the identity `fragment` stands in `cells`.
pub open spec fn slot_of(cells: Seq<CellView>, fragment: u32) -> int {
    choose|i: int| 0 <= i < cells.len() && cells[i].fragment == fragment
}

/// No two cells share an identity.
pub open spec fn distinct_fragments(cells: Seq<CellView>) -> bool {
    forall|i: int, j: int| 0 <= i < j < cells.len() ==> cells[i].fragment != cells[j].fragment
}

/// The store after `cell` was created or, where its identity is known
/// already, put in the place of the cell that had it.
pub open spec fn upserted(cells: Seq<CellView>, cell: CellView) -> Seq<CellView> {
    if has_fragment(cells, cell.fragment) {
        cells.update(slot_of(cells, cell.fragment), cell)
    } else {
        cells.push(cell)
    }
}

/// The store after `cell` was put in the place of the cell with its
/// identity; unchanged where no cell has it.
pub open spec fn updated(cells: Seq<CellView>, cell: CellView) -> Seq<CellView> {
    if has_fragment(cells, cell.fragment) {
        cells.update(slot_of(cells, cell.fragment), cell)
    } else {
        cells
    }
}

/// `sorted` with `cell` put behind every cell whose position is not greater
/// than its own.
pub open spec fn insert_ordered(sorted: Seq<CellView>, cell: CellView) -> Seq<CellView>
    decreases sorted.len(),
{
    if sorted.len() == 0 {
        seq![cell]
    } else if sorted.last().index <= cell.index {
        sorted.push(cell)
    } else {
        insert_ordered(sorted.drop_last(), cell).push(sorted.last())
    }
}

/// The cells in ascending order of position; cells with equal positions stay
/// in the order in which `cells` holds them.
pub open spec fn ordered(cells: Seq<CellView>) -> Seq<CellView>
    decreases cells.len(),
{
    if cells.len() == 0 {
        Seq::empty()
    } else {
        insert_ordered(ordered(cells.drop_last()), cells.last())
    }
}

/// Putting `cell` at place `p` is the ordered insertion, where every cell
/// from `p` on has a greater position and the cell before `p` has not.
pub proof fn lemma_insert_ordered_at(sorted: Seq<CellView>, cell: CellView, p: int)
    requires
        0 <= p <= sorted.len(),
        forall|j: int| p <= j < sorted.len() ==> sorted[j].index > cell.index,
        p > 0 ==> sorted[p - 1].index <= cell.index,
    ensures
        insert_ordered(sorted, cell) == sorted.insert(p, cell),
    decreases sorted.len(),
{
    if sorted.len() == 0 {
        assert(sorted.insert(p, cell) =~= seq![cell]);
    } else if p == sorted.len() {
        assert(sorted.insert(p, cell) =~= sorted.push(cell));
    } else {
        lemma_insert_ordered_at(sorted.drop_last(), cell, p);
        assert(sorted.drop_last().insert(p, cell).push(sorted.last()) =~= sorted.insert(p, cell));
    }
}

/// Positions never go down along `cells`.
pub open spec fn ascending(cells: Seq<CellView>) -> bool {
    forall|i: int, j: int| 0 <= i < j < cells.len() ==> cells[i].index <= cells[j].index
}

/// Positions go up along `cells`.
pub open spec fn strictly_ascending(cells: Seq<CellView>) -> bool {
    forall|i: int, j: int| 0 <= i < j < cells.len() ==> cells[i].index < cells[j].index
}

/// No two cells share a position.
pub open spec fn distinct_positions(cells: Seq<CellView>) -> bool {
    forall|i: int, j: int| 0 <= i < j < cells.len() ==> cells[i].index != cells[j].index
}

/// The two stores hold the same cells, in whatever order.
pub open spec fn same_cells(a: Seq<CellView>, b: Seq<CellView>) -> bool {
    forall|c: CellView| a.contains(c) <==> b.contains(c)
}

/// The cells of `cells` at position `index`, in the order of `cells`.
pub open spec fn at_position(cells: Seq<CellView>, index: u32) -> Seq<CellView>
    decreases cells.len(),
{
    if cells.len() == 0 {
        cells
    } else if cells.last().index == index {
        at_position(cells.drop_last(), index).push(cells.last())
    } else {
        at_position(cells.drop_last(), index)
    }
}

/// Ordered insertion adds the cell and nothing else.
pub proof fn lemma_insert_ordered_cells(sorted: Seq<CellView>, cell: CellView)
    ensures
        insert_ordered(sorted, cell).len() == sorted.len() + 1,
        insert_ordered(sorted, cell).to_multiset() == sorted.to_multiset().insert(cell),
        forall|c: CellView| #[trigger]
            insert_ordered(sorted, cell).contains(c) <==> (sorted.contains(c) || c == cell),
    decreases sorted.len(),
{
    broadcast use vstd::seq_lib::group_to_multiset_ensures;

    let out = insert_ordered(sorted, cell);
    if sorted.len() == 0 {
        assert(out[0] == cell);
        assert(sorted =~= Seq::<CellView>::empty());
    } else if sorted.last().index <= cell.index {
        assert forall|c: CellView| #[trigger] out.contains(c) <==> (sorted.contains(c) || c == cell) by {
            if sorted.contains(c) {
                let i = choose|i: int| 0 <= i < sorted.len() && sorted[i] == c;
                assert(out[i] == c);
            }
            if c == cell {
                assert(out[sorted.len() as int] == c);
            }
        }
    } else {
        let front = sorted.drop_last();
        let inner = insert_ordered(front, cell);
        lemma_insert_ordered_cells(front, cell);
        assert(sorted =~= front.push(sorted.last()));
        assert(out == inner.push(sorted.last()));
        assert forall|c: CellView| #[trigger] out.contains(c) <==> (sorted.contains(c) || c == cell) by {
            if out.contains(c) {
                let i = choose|i: int| 0 <= i < out.len() && out[i] == c;
                if i < inner.len() {
                    assert(inner[i] == c);
                    assert(inner.contains(c));
                    if front.contains(c) {
                        let j = choose|j: int| 0 <= j < front.len() && front[j] == c;
                        assert(sorted[j] == c);
                    }
                } else {
                    assert(sorted[sorted.len() - 1] == c);
                }
            }
            if sorted.contains(c) {
                let i = choose|i: int| 0 <= i < sorted.len() && sorted[i] == c;
                if i < front.len() {
                    assert(front[i] == c);
                    assert(front.contains(c));
                    assert(inner.contains(c));
                    let j = choose|j: int| 0 <= j < inner.len() && inner[j] == c;
                    assert(out[j] == c);
                } else {
                    assert(out[out.len() - 1] == c);
                }
            }
            if c == cell {
                assert(inner.contains(c));
                let j = choose|j: int| 0 <= j < inner.len() && inner[j] == c;
                assert(out[j] == c);
            }
        }
    }
}

/// Ordered insertion keeps an ascending sequence ascending.
pub proof fn lemma_insert_ordered_ascending(sorted: Seq<CellView>, cell: CellView)
    requires
        ascending(sorted),
    ensures
        ascending(insert_ordered(sorted, cell)),
    decreases sorted.len(),
{
    let out = insert_ordered(sorted, cell);
    if sorted.len() == 0 {
    } else if sorted.last().index <= cell.index {
        assert forall|i: int, j: int| 0 <= i < j < out.len() implies out[i].index
            <= out[j].index by {
            if j < sorted.len() {
                assert(out[i] == sorted[i] && out[j] == sorted[j]);
            } else {
                assert(out[i] == sorted[i]);
                assert(sorted[i].index <= sorted.last().index);
            }
        }
    } else {
        let front = sorted.drop_last();
        let inner = insert_ordered(front, cell);
        assert forall|i: int, j: int| 0 <= i < j < front.len() implies front[i].index
            <= front[j].index by {
            assert(front[i] == sorted[i] && front[j] == sorted[j]);
        }
        lemma_insert_ordered_ascending(front, cell);
        lemma_insert_ordered_cells(front, cell);
        assert(out == inner.push(sorted.last()));
        assert forall|i: int, j: int| 0 <= i < j < out.len() implies out[i].index
            <= out[j].index by {
            if j < inner.len() {
                assert(out[i] == inner[i] && out[j] == inner[j]);
            } else {
                assert(out[i] == inner[i]);
                assert(out[j] == sorted.last());
                assert(inner.contains(inner[i]));
                if inner[i] != cell {
                    assert(front.contains(inner[i]));
                    let m = choose|m: int| 0 <= m < front.len() && front[m] == inner[i];
                    assert(sorted[m] == inner[i]);
                    assert(sorted[m].index <= sorted[sorted.len() - 1].index);
                }
            }
        }
    }
}

/// Ordered insertion puts the cell behind the cells of its position, and
/// leaves the cells of every other position as they stood.
pub proof fn lemma_insert_ordered_stable(sorted: Seq<CellView>, cell: CellView, index: u32)
    ensures
        at_position(insert_ordered(sorted, cell), index) == if index == cell.index {
            at_position(sorted, index).push(cell)
        } else {
            at_position(sorted, index)
        },
    decreases sorted.len(),
{
    let out = insert_ordered(sorted, cell);
    if sorted.len() == 0 {
        assert(out.drop_last() =~= sorted);
        assert(out.last() == cell);
    } else if sorted.last().index <= cell.index {
        assert(out.drop_last() =~= sorted);
        assert(out.last() == cell);
    } else {
        let front = sorted.drop_last();
        let inner = insert_ordered(front, cell);
        lemma_insert_ordered_stable(front, cell, index);
        assert(out.drop_last() =~= inner);
        assert(out.last() == sorted.last());
        if sorted.last().index == index {
            assert(at_position(out, index) == at_position(inner, index).push(sorted.last()));
            assert(at_position(sorted, index) == at_position(front, index).push(sorted.last()));
        } else {
            assert(at_position(out, index) == at_position(inner, index));
            assert(at_position(sorted, index) == at_position(front, index));
        }
    }
}

/// The snapshot holds the cells of the store and no others, each as often
/// as the store does.
pub proof fn lemma_ordered_same_cells(cells: Seq<CellView>)
    ensures
        ordered(cells).len() == cells.len(),
        ordered(cells).to_multiset() == cells.to_multiset(),
        same_cells(ordered(cells), cells),
    decreases cells.len(),
{
    broadcast use vstd::seq_lib::group_to_multiset_ensures;

    if cells.len() == 0 {
    } else {
        let front = cells.drop_last();
        lemma_ordered_same_cells(front);
        lemma_insert_ordered_cells(ordered(front), cells.last());
        assert(cells =~= front.push(cells.last()));
        assert forall|c: CellView| ordered(cells).contains(c) <==> cells.contains(c) by {
            if cells.contains(c) {
                let i = choose|i: int| 0 <= i < cells.len() && cells[i] == c;
                if i < front.len() {
                    assert(front[i] == c);
                }
            }
            if front.contains(c) {
                let i = choose|i: int| 0 <= i < front.len() && front[i] == c;
                assert(cells[i] == c);
            }
            if c == cells.last() {
                assert(cells[cells.len() - 1] == c);
            }
        }
    }
}

/// The snapshot is in ascending order of position.
pub proof fn lemma_ordered_ascending(cells: Seq<CellView>)
    ensures
        ascending(ordered(cells)),
    decreases cells.len(),
{
    if cells.len() > 0 {
        lemma_ordered_ascending(cells.drop_last());
        lemma_insert_ordered_ascending(ordered(cells.drop_last()), cells.last());
    }
}

/// The snapshot is stable: the cells that share a position stand in it in
/// the order in which the store holds them.
pub proof fn lemma_ordered_stable(cells: Seq<CellView>, index: u32)
    ensures
        at_position(ordered(cells), index) == at_position(cells, index),
    decreases cells.len(),
{
    if cells.len() > 0 {
        lemma_ordered_stable(cells.drop_last(), index);
        lemma_insert_ordered_stable(ordered(cells.drop_last()), cells.last(), index);
    }
}

/// Two sequences of cells in strictly ascending order of position that hold
/// the same cells are the same sequence.
pub proof fn lemma_strictly_ascending_unique(x: Seq<CellView>, y: Seq<CellView>)
    requires
        strictly_ascending(x),
        strictly_ascending(y),
        same_cells(x, y),
    ensures
        x == y,
    decreases x.len(),
{
    if x.len() == 0 {
        if y.len() > 0 {
            assert(y.contains(y[0]));
        }
        assert(x =~= y);
    } else if y.len() == 0 {
        assert(x.contains(x[0]));
    } else {
        let xl = x.last();
        let yl = y.last();
        assert(x.contains(xl));
        assert(y.contains(yl));
        let k = choose|k: int| 0 <= k < y.len() && y[k] == xl;
        let m = choose|m: int| 0 <= m < x.len() && x[m] == yl;
        assert(xl.index <= yl.index);
        assert(yl.index <= xl.index);
        assert(m == x.len() - 1);
        assert(xl == yl);
        let xf = x.drop_last();
        let yf = y.drop_last();
        assert forall|c: CellView| xf.contains(c) <==> yf.contains(c) by {
            if xf.contains(c) {
                let i = choose|i: int| 0 <= i < xf.len() && xf[i] == c;
                assert(x[i] == c);
                assert(x.contains(c));
                let j = choose|j: int| 0 <= j < y.len() && y[j] == c;
                assert(j < y.len() - 1);
                assert(yf[j] == c);
            }
            if yf.contains(c) {
                let i = choose|i: int| 0 <= i < yf.len() && yf[i] == c;
                assert(y[i] == c);
                assert(y.contains(c));
                let j = choose|j: int| 0 <= j < x.len() && x[j] == c;
                assert(j < x.len() - 1);
                assert(xf[j] == c);
            }
        }
        lemma_strictly_ascending_unique(xf, yf);
        assert(x =~= xf.push(xl));
        assert(y =~= yf.push(yl));
    }
}

/// Where no two cells share a position, the snapshot is in strictly
/// ascending order.
pub proof fn lemma_ordered_strictly_ascending(cells: Seq<CellView>)
    requires
        distinct_positions(cells),
    ensures
        strictly_ascending(ordered(cells)),
{
    lemma_ordered_ascending(cells);
    lemma_ordered_same_cells(cells);
    let out = ordered(cells);
    assert forall|i: int, j: int| 0 <= i < j < out.len() implies out[i].index < out[j].index by {
        if out[i].index == out[j].index {
            let k = out[i].index;
            lemma_ordered_stable(cells, k);
            lemma_at_position_single(cells, k);
            lemma_at_position_counts(out, k, i, j);
        }
    }
}

/// Where no two cells share a position, at most one cell is at `index`.
proof fn lemma_at_position_single(cells: Seq<CellView>, index: u32)
    requires
        distinct_positions(cells),
    ensures
        at_position(cells, index).len() <= 1,
    decreases cells.len(),
{
    if cells.len() > 0 {
        let front = cells.drop_last();
        assert forall|i: int, j: int| 0 <= i < j < front.len() implies front[i].index
            != front[j].index by {
            assert(front[i] == cells[i] && front[j] == cells[j]);
        }
        lemma_at_position_single(front, index);
        if cells.last().index == index {
            assert forall|i: int| 0 <= i < front.len() implies front[i].index != index by {
                assert(front[i] == cells[i]);
            }
            lemma_at_position_empty(front, index);
        }
    }
}

/// Where no cell is at `index`, `at_position` is empty.
proof fn lemma_at_position_empty(cells: Seq<CellView>, index: u32)
    requires
        forall|i: int| 0 <= i < cells.len() ==> cells[i].index != index,
    ensures
        at_position(cells, index).len() == 0,
    decreases cells.len(),
{
    if cells.len() > 0 {
        let front = cells.drop_last();
        assert forall|i: int| 0 <= i < front.len() implies front[i].index != index by {
            assert(front[i] == cells[i]);
        }
        lemma_at_position_empty(front, index);
    }
}

/// Two cells at `index` in different places make `at_position` hold two.
proof fn lemma_at_position_counts(cells: Seq<CellView>, index: u32, i: int, j: int)
    requires
        0 <= i < j < cells.len(),
        cells[i].index == index,
        cells[j].index == index,
    ensures
        at_position(cells, index).len() >= 2,
    decreases cells.len(),
{
    let front = cells.drop_last();
    if j == cells.len() - 1 {
        lemma_at_position_nonempty(front, index, i);
    } else {
        assert(front[i] == cells[i] && front[j] == cells[j]);
        lemma_at_position_counts(front, index, i, j);
    }
}

/// A cell at `index` makes `at_position` hold one at least.
proof fn lemma_at_position_nonempty(cells: Seq<CellView>, index: u32, i: int)
    requires
        0 <= i < cells.len(),
        cells[i].index == index,
    ensures
        at_position(cells, index).len() >= 1,
    decreases cells.len(),
{
    let front = cells.drop_last();
    if i < cells.len() - 1 {
        assert(front[i] == cells[i]);
        lemma_at_position_nonempty(front, index, i);
    }
}

/// The order of assembly depends on the cells' positions alone: two stores
/// that hold the same cells give the same snapshot, in whatever order the
/// cells were created, provided that no two cells share a position.
pub proof fn lemma_order_ignores_creation(a: Seq<CellView>, b: Seq<CellView>)
    requires
        distinct_fragments(a),
        distinct_fragments(b),
        same_cells(a, b),
        distinct_positions(a),
    ensures
        ordered(a) == ordered(b),
{
    assert(distinct_positions(b)) by {
        assert forall|i: int, j: int| 0 <= i < j < b.len() implies b[i].index != b[j].index by {
            assert(b.contains(b[i]));
            assert(b.contains(b[j]));
            let m = choose|m: int| 0 <= m < a.len() && a[m] == b[i];
            let n = choose|n: int| 0 <= n < a.len() && a[n] == b[j];
            assert(m != n);
        }
    }
    lemma_ordered_strictly_ascending(a);
    lemma_ordered_strictly_ascending(b);
    lemma_ordered_same_cells(a);
    lemma_ordered_same_cells(b);
    lemma_strictly_ascending_unique(ordered(a), ordered(b));
}

/// The store after the requests of `requests` were applied in turn, each
/// creating its cell or updating the cell that has its identity.
pub open spec fn upserted_all(cells: Seq<CellView>, requests: Seq<CellView>) -> Seq<CellView>
    decreases requests.len(),
{
    if requests.len() == 0 {
        cells
    } else {
        upserted(upserted_all(cells, requests.drop_last()), requests.last())
    }
}

/// Creating or updating a cell leaves one cell per identity, makes that
/// cell the only one with its identity, and leaves every other cell as it
/// was and where it was.
pub proof fn lemma_upserted(cells: Seq<CellView>, cell: CellView)
    requires
        distinct_fragments(cells),
    ensures
        distinct_fragments(upserted(cells, cell)),
        has_fragment(upserted(cells, cell), cell.fragment),
        forall|i: int|
            0 <= i < upserted(cells, cell).len() && (#[trigger] upserted(cells, cell)[i]).fragment
                == cell.fragment ==> upserted(cells, cell)[i] == cell,
        forall|i: int|
            0 <= i < cells.len() && (#[trigger] cells[i]).fragment != cell.fragment ==> upserted(
                cells,
                cell,
            )[i] == cells[i],
        upserted(cells, cell).len() == if has_fragment(cells, cell.fragment) {
            cells.len()
        } else {
            cells.len() + 1
        },
{
    let out = upserted(cells, cell);
    if has_fragment(cells, cell.fragment) {
        let k = slot_of(cells, cell.fragment);
        assert(out[k].fragment == cell.fragment);
    } else {
        assert(out[cells.len() as int].fragment == cell.fragment);
    }
}

/// After any run of requests, an identity that a request named has exactly
/// one cell, and that cell holds what the last request that named it asked
/// for.
pub proof fn lemma_last_request_wins(cells: Seq<CellView>, requests: Seq<CellView>, k: int)
    requires
        distinct_fragments(cells),
        0 <= k < requests.len(),
        forall|j: int| k < j < requests.len() ==> requests[j].fragment != requests[k].fragment,
    ensures
        distinct_fragments(upserted_all(cells, requests)),
        has_fragment(upserted_all(cells, requests), requests[k].fragment),
        forall|i: int|
            0 <= i < upserted_all(cells, requests).len() && (#[trigger] upserted_all(
                cells,
                requests,
            )[i]).fragment == requests[k].fragment ==> upserted_all(cells, requests)[i]
                == requests[k],
    decreases requests.len(),
{
    let front = requests.drop_last();
    let before = upserted_all(cells, front);
    lemma_upserted_all_distinct(cells, front);
    lemma_upserted(before, requests.last());
    if k < requests.len() - 1 {
        assert forall|j: int| k < j < front.len() implies front[j].fragment != front[k].fragment by {
            assert(front[j] == requests[j] && front[k] == requests[k]);
        }
        lemma_last_request_wins(cells, front, k);
        let after = upserted_all(cells, requests);
        let f = requests[k].fragment;
        let i = choose|i: int| 0 <= i < before.len() && before[i].fragment == f;
        assert(after[i] == before[i]);
        assert forall|i: int| 0 <= i < after.len() && (#[trigger] after[i]).fragment == f implies after[i]
            == requests[k] by {
            if i < before.len() {
                if before[i].fragment != requests.last().fragment {
                    assert(after[i] == before[i]);
                }
            }
        }
    }
}

/// Applying requests in turn leaves one cell per identity.
pub proof fn lemma_upserted_all_distinct(cells: Seq<CellView>, requests: Seq<CellView>)
    requires
        distinct_fragments(cells),
    ensures
        distinct_fragments(upserted_all(cells, requests)),
    decreases requests.len(),
{
    if requests.len() > 0 {
        lemma_upserted_all_distinct(cells, requests.drop_last());
        lemma_upserted(upserted_all(cells, requests.drop_last()), requests.last());
    }
}

} // verus!
