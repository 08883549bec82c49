//! Text printouts of matrices: one line per row, `[a, b, c]`, each value
//! as the scalar type renders it.
use vstd::prelude::*;
use vstd::string::StringExecFns;
use crate::scalar::SparseScalar;

verus! {

/// `s` is the text `render` gives for `v`.
pub open spec fn renders<T: SparseScalar>(v: T, s: Seq<char>) -> bool {
    exists|st: String| #[trigger] call_ensures(T::render, (v,), st) && st@ == s
}

/// The cells of a row separated by `", "`.
pub open spec fn joined(cells: Seq<Seq<char>>) -> Seq<char>
    decreases cells.len(),
{
    if cells.len() == 0 {
        Seq::empty()
    } else if cells.len() == 1 {
        cells[0]
    } else {
        joined(cells.drop_last()) + seq![',', ' '] + cells.last()
    }
}

/// One printed row: `[`, the joined cells, `]` and a line break.
pub open spec fn row_text(cells: Seq<Seq<char>>) -> Seq<char> {
    seq!['['] + joined(cells) + seq![']', '\n']
}

/// The printed rows, one after the other.
pub open spec fn grid_text(rows: Seq<Seq<Seq<char>>>) -> Seq<char>
    decreases rows.len(),
{
    if rows.len() == 0 {
        Seq::empty()
    } else {
        grid_text(rows.drop_last()) + row_text(rows.last())
    }
}

/// `cells` renders the dense rows `vals` cell by cell.
pub open spec fn cells_render<T: SparseScalar>(vals: Seq<Vec<T>>, cells: Seq<Seq<Seq<char>>>) -> bool {
    &&& cells.len() == vals.len()
    &&& forall|i: int| 0 <= i < vals.len() ==> #[trigger] cells[i].len() == vals[i]@.len()
    &&& forall|i: int, j: int| 0 <= i < vals.len() && 0 <= j < vals[i]@.len() ==> renders(vals[i]@[j], #[trigger] cells[i][j])
}

/// `s` is the printout of the dense rows `vals`.
pub open spec fn printout<T: SparseScalar>(vals: Seq<Vec<T>>, s: Seq<char>) -> bool {
    exists|cells: Seq<Seq<Seq<char>>>| #[trigger] cells_render(vals, cells) && s == grid_text(cells)
}

/// Print dense rows: one line per row, the rendered values between
/// brackets and separated by `", "`.
pub fn render_rows<T: SparseScalar>(rows: &Vec<Vec<T>>) -> (s: String)
    ensures
        printout(rows@, s@),
{
    let open_b = "[";
    let sep = ", ";
    let close_b = "]\n";
    proof {
        reveal_strlit("[");
        reveal_strlit(", ");
        reveal_strlit("]\n");
        assert(open_b@ =~= seq!['[']);
        assert(sep@ =~= seq![',', ' ']);
        assert(close_b@ =~= seq![']', '\n']);
    }
    let mut s = String::new();
    let ghost mut cells: Seq<Seq<Seq<char>>> = Seq::empty();
    let mut i: usize = 0;
    while i < rows.len()
        invariant
            0 <= i <= rows@.len(),
            open_b@ == seq!['['],
            sep@ == seq![',', ' '],
            close_b@ == seq![']', '\n'],
            cells.len() == i,
            cells_render(rows@.take(i as int), cells),
            s@ == grid_text(cells),
        decreases rows@.len() - i,
    {
        let row = &rows[i];
        let ghost base = s@;
        s.append(open_b);
        let ghost mut line: Seq<Seq<char>> = Seq::empty();
        let mut j: usize = 0;
        while j < row.len()
            invariant
                0 <= j <= row@.len(),
                open_b@ == seq!['['],
                sep@ == seq![',', ' '],
                line.len() == j,
                forall|q: int| 0 <= q < j ==> renders(row@[q], #[trigger] line[q]),
                s@ == base + seq!['['] + joined(line),
            decreases row@.len() - j,
        {
            if j > 0 {
                s.append(sep);
            }
            let t = row[j].render();
            s.append(t.as_str());
            proof {
                let l0 = line;
                line = l0.push(t@);
                assert(line.drop_last() =~= l0);
                assert(renders(row@[j as int], t@));
                if j == 0 {
                    assert(joined(line) =~= t@);
                    assert(joined(l0) =~= Seq::<char>::empty());
                }
                assert(s@ =~= base + seq!['['] + joined(line));
            }
            j = j + 1;
        }
        s.append(close_b);
        proof {
            let c0 = cells;
            cells = c0.push(line);
            assert(cells.drop_last() =~= c0);
            assert(s@ =~= grid_text(cells));
            assert(rows@.take(i + 1).drop_last() =~= rows@.take(i as int));
            assert forall|q: int| 0 <= q < i + 1 implies #[trigger] cells[q].len() == rows@.take(i + 1)[q]@.len() by {
                if q < i {
                    assert(cells[q] == c0[q]);
                }
            }
            assert forall|q: int, k: int| 0 <= q < i + 1 && 0 <= k < rows@.take(i + 1)[q]@.len() implies
                renders(rows@.take(i + 1)[q]@[k], #[trigger] cells[q][k]) by {
                if q < i {
                    assert(cells[q] == c0[q]);
                    assert(rows@.take(i + 1)[q] == rows@.take(i as int)[q]);
                }
            }
        }
        i = i + 1;
    }
    proof {
        assert(rows@.take(rows@.len() as int) =~= rows@);
    }
    s
}

} // verus!
