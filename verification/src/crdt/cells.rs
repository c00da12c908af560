//! Lists that are written anew: what stays of the old list, and where the
//! timestamp goes.

use vstd::prelude::*;

verus! {

/// One place of a list that is written anew: what stood at this position of the
/// old list, or what belongs to the timestamp.
pub type Cell = Option<usize>;

/// The old list of this length, as it was.
pub open spec fn given(n: nat) -> Seq<Cell> {
    Seq::new(n, |i: int| Some(i as usize))
}

/// Everything that stays was in the old list of length `n`.
pub open spec fn cells_in(cells: Seq<Cell>, n: nat) -> bool {
    forall|i: int|
        0 <= i < cells.len() ==> ((#[trigger] cells[i]) matches Some(k) ==> k < n)
}

/// Every list of `rows` takes from the old row at its position.
pub open spec fn rows_in(rows: Seq<Seq<Cell>>, widths: Seq<usize>) -> bool {
    rows.len() == widths.len() && forall|i: int|
        0 <= i < rows.len() ==> cells_in(#[trigger] rows[i], widths[i] as nat)
}

/// What a list of rows stands for.
pub open spec fn cell_rows(rows: Seq<Vec<Cell>>) -> Seq<Seq<Cell>> {
    rows.map_values(|r: Vec<Cell>| r@)
}

/// Where the timestamp goes in a list of `width` places: in place of what stands
/// at `index`, or at the end where the list is shorter.
pub open spec fn stamp_place(width: nat, index: nat) -> (nat, nat) {
    if index < width {
        (index, index + 1)
    } else {
        (width, width)
    }
}

/// A list with `value` in place of what stood from one position up to another.
pub open spec fn spliced<T>(row: Seq<T>, place: (nat, nat), value: T) -> Seq<T> {
    row.take(place.0 as int).push(value) + row.skip(place.1 as int)
}

/// An old list of `width` places with the timestamp at `index`.
pub open spec fn stamped(width: nat, index: nat) -> Seq<Cell> {
    spliced(given(width), stamp_place(width, index), None)
}

/// The timestamp stands at its place, and everything else stays where it was:
/// whatever the caller wrote for the timestamp is gone.
pub proof fn lemma_stamped(width: nat, index: nat)
    requires
        index <= width <= usize::MAX,
    ensures
        stamped(width, index)[index as int] is None,
        stamped(width, index).len() == if index < width {
            width
        } else {
            width + 1
        },
        forall|k: int|
            0 <= k < width && k != index ==> #[trigger] stamped(width, index)[k] == Some(
                k as usize,
            ),
{
}

/// The old list of length `n`, as it was.
pub fn given_cells(n: usize) -> (r: Vec<Cell>)
    ensures
        r@ == given(n as nat),
        cells_in(r@, n as nat),
{
    let mut out: Vec<Cell> = Vec::new();
    let mut i: usize = 0;
    while i < n
        invariant
            i <= n,
            out@ == given(i as nat),
        decreases n - i,
    {
        out.push(Some(i));
        i += 1;
        assert(out@ =~= given(i as nat));
    }
    out
}

/// The old list of `width` places with the timestamp at `index`, or at the end.
pub fn stamped_cells(width: usize, index: usize) -> (r: Vec<Cell>)
    ensures
        r@ == stamped(width as nat, index as nat),
        cells_in(r@, width as nat),
{
    let mut out = given_cells(width);
    if index < width {
        out.set(index, None);
    } else {
        out.push(None);
    }
    assert(out@ =~= stamped(width as nat, index as nat));
    out
}

} // verus!
