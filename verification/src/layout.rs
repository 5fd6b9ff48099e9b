//! Terminal-width-aware grid layout of synonym groups: the column-count
//! rule, the adjacency-only merge of same-category groups, and the
//! row-major padded grid of word cells under one category header.

use vstd::prelude::*;

verus! {

use crate::domain::{printable_of, Synonyms, SynonymsV, Word, WordV};
use vstd::string::StringExecFns;

/// The fixed character width of one word cell.
pub const WORD_SIZE: usize = 20;

/// The most columns a grid may have, however wide the terminal is.
pub const MAX_COLS: usize = 12;

/// The column count for a terminal of the given width: one cell per
/// `WORD_SIZE` columns, capped at `MAX_COLS`, but never less than one.
pub open spec fn spec_column_count(width: int) -> int {
    let q = width / (WORD_SIZE as int);
    if q == 0 {
        1
    } else if q > MAX_COLS as int {
        MAX_COLS as int
    } else {
        q
    }
}

/// The column count used for a terminal of the given width.
pub fn column_count(terminal_width: usize) -> (c: usize)
    ensures
        c as int == spec_column_count(terminal_width as int),
        1 <= c <= MAX_COLS,
{
    let q = terminal_width / WORD_SIZE;
    if q == 0 {
        1
    } else if q > MAX_COLS {
        MAX_COLS
    } else {
        q
    }
}

/// Groups after merging *adjacent* runs of one category: a group joins
/// the one before it when their categories are equal, otherwise it starts
/// a new entry.  Equal categories that are not adjacent stay apart.
pub open spec fn merge_spec(gs: Seq<SynonymsV>) -> Seq<SynonymsV>
    decreases gs.len(),
{
    if gs.len() == 0 {
        Seq::empty()
    } else {
        let m = merge_spec(gs.drop_last());
        let g = gs.last();
        if m.len() > 0 && m.last().category == g.category {
            m.update(
                m.len() - 1,
                SynonymsV { category: m.last().category, words: m.last().words + g.words },
            )
        } else {
            m.push(g)
        }
    }
}

/// Merging leaves no two neighbouring groups with the same category.
pub proof fn lemma_merge_no_adjacent_duplicates(gs: Seq<SynonymsV>)
    ensures
        forall|i: int|
            0 <= i && i + 1 < merge_spec(gs).len() ==> #[trigger] merge_spec(gs)[i].category
                != merge_spec(gs)[i + 1].category,
    decreases gs.len(),
{
    if gs.len() > 0 {
        lemma_merge_no_adjacent_duplicates(gs.drop_last());
        let m = merge_spec(gs.drop_last());
        let g = gs.last();
        let res = merge_spec(gs);
        if m.len() > 0 && m.last().category == g.category {
            assert forall|i: int| 0 <= i && i + 1 < res.len() implies #[trigger] res[i].category
                != res[i + 1].category by {
                assert(res[i].category == m[i].category);
                assert(res[i + 1].category == m[i + 1].category);
            }
        } else {
            assert forall|i: int| 0 <= i && i + 1 < res.len() implies #[trigger] res[i].category
                != res[i + 1].category by {
                if i + 1 < m.len() {
                    assert(res[i] == m[i]);
                    assert(res[i + 1] == m[i + 1]);
                } else {
                    assert(res[i] == m[m.len() - 1]);
                    assert(res[i + 1] == g);
                }
            }
        }
    }
}

/// All the groups' words, read group by group in order.
pub open spec fn flatten_words(gs: Seq<SynonymsV>) -> Seq<WordV>
    decreases gs.len(),
{
    if gs.len() == 0 {
        Seq::empty()
    } else {
        flatten_words(gs.drop_last()) + gs.last().words
    }
}

/// Merging drops and reorders nothing: reading the merged groups' words
/// in order gives exactly the original groups' words in order.
pub proof fn lemma_merge_preserves_words(gs: Seq<SynonymsV>)
    ensures
        flatten_words(merge_spec(gs)) == flatten_words(gs),
    decreases gs.len(),
{
    if gs.len() > 0 {
        lemma_merge_preserves_words(gs.drop_last());
        let m = merge_spec(gs.drop_last());
        let g = gs.last();
        if m.len() > 0 && m.last().category == g.category {
            let u = merge_spec(gs);
            assert(u.drop_last() =~= m.drop_last());
            assert(u.last() == (SynonymsV {
                category: m.last().category,
                words: m.last().words + g.words,
            }));
            assert(flatten_words(u) == flatten_words(m.drop_last()) + (m.last().words
                + g.words));
            assert(flatten_words(m) == flatten_words(m.drop_last()) + m.last().words);
            assert(flatten_words(m.drop_last()) + (m.last().words + g.words) =~= (flatten_words(
                m.drop_last(),
            ) + m.last().words) + g.words);
        } else {
            assert(m.push(g).drop_last() =~= m);
            assert(m.push(g).last() == g);
        }
    }
}

/// Merge adjacent groups that share a category, keeping order otherwise.
pub fn merge_adjacent(groups: Vec<Synonyms>) -> (r: Vec<Synonyms>)
    ensures
        r.deep_view() == merge_spec(groups.deep_view()),
{
    let ghost orig = groups.deep_view();
    let mut rest = groups;
    let mut r: Vec<Synonyms> = Vec::new();
    let ghost mut i: int = 0;
    proof {
        assert(orig.take(0) =~= Seq::<SynonymsV>::empty());
        assert(r.deep_view() =~= merge_spec(orig.take(0)));
        assert(rest.deep_view() =~= orig.skip(0));
    }
    while rest.len() > 0
        invariant
            0 <= i <= orig.len(),
            rest.deep_view() == orig.skip(i),
            r.deep_view() == merge_spec(orig.take(i)),
        decreases rest@.len(),
    {
        let ghost m = merge_spec(orig.take(i));
        let ghost before = rest@;
        let ghost before_deep = rest.deep_view();
        let g = rest.remove(0);
        proof {
            before.remove_ensures(0);
            assert(rest@.len() == orig.skip(i).len() - 1);
            assert(g.deep_view() == orig.skip(i)[0]);
            assert(orig.skip(i)[0] == orig[i]);
            assert forall|j: int| 0 <= j < rest@.len() implies rest.deep_view()[j] == orig.skip(
                i + 1,
            )[j] by {
                assert(rest@[j] == before[j + 1]);
                assert(before_deep[j + 1] == before[j + 1]@);
                assert(orig.skip(i)[j + 1] == orig[i + 1 + j]);
                assert(orig.skip(i + 1)[j] == orig[i + 1 + j]);
            }
            assert(rest.deep_view() =~= orig.skip(i + 1));
            assert(orig.take(i + 1).drop_last() =~= orig.take(i));
            assert(orig.take(i + 1).last() == orig[i]);
        }
        let matches_last = if r.len() > 0 {
            r[r.len() - 1].category == g.category
        } else {
            false
        };
        proof {
            assert(r@.len() == m.len());
            if r@.len() > 0 {
                assert(r.deep_view()[r@.len() - 1] == r@[r@.len() - 1]@);
            }
            assert(matches_last == (m.len() > 0 && m.last().category == orig[i].category));
        }
        if matches_last {
            let last = r.pop().unwrap();
            let Synonyms { category, words } = last;
            let mut words = words;
            let Synonyms { category: _g_category, words: g_words } = g;
            let mut g_words = g_words;
            words.append(&mut g_words);
            r.push(Synonyms { category, words });
            proof {
                let updated = SynonymsV {
                    category: m.last().category,
                    words: m.last().words + orig[i].words,
                };
                assert(r.deep_view() =~~= m.update(m.len() - 1, updated));
                assert(merge_spec(orig.take(i + 1)) == m.update(m.len() - 1, updated));
            }
        } else {
            r.push(g);
            proof {
                assert(r.deep_view() =~= m.push(orig[i]));
                assert(merge_spec(orig.take(i + 1)) == m.push(orig[i]));
            }
        }
        proof {
            i = i + 1;
        }
    }
    proof {
        assert(orig.skip(i).len() == 0);
        assert(i == orig.len());
        assert(orig.take(i) =~= orig);
    }
    r
}

/// The number of grid rows needed for `n` cells at `cols` per row.
pub open spec fn row_count(n: int, cols: int) -> int {
    (n + cols - 1) / cols
}

/// The text of the grid cell at flat index `idx`: a word's printable
/// form, or empty padding past the last word.
pub open spec fn cell_of(ws: Seq<WordV>, idx: int) -> Seq<char> {
    if 0 <= idx < ws.len() {
        printable_of(ws[idx])
    } else {
        Seq::empty()
    }
}

/// The padded row-major grid of the words' cells, `cols` per row.
pub open spec fn grid_of(ws: Seq<WordV>, cols: int) -> Seq<Seq<Seq<char>>> {
    Seq::new(
        row_count(ws.len() as int, cols) as nat,
        |r: int| Seq::new(cols as nat, |c: int| cell_of(ws, r * cols + c)),
    )
}

/// The shape every grid has: exactly `ceil(n / cols)` rows of exactly
/// `cols` cells, the words laid left to right, top to bottom, and every
/// cell after the last word an empty one.
pub proof fn lemma_grid_shape(ws: Seq<WordV>, cols: int)
    requires
        cols >= 1,
    ensures
        grid_of(ws, cols).len() == row_count(ws.len() as int, cols),
        forall|r: int| 0 <= r < grid_of(ws, cols).len() ==> grid_of(ws, cols)[r].len() == cols,
        forall|r: int, c: int|
            0 <= r < grid_of(ws, cols).len() && 0 <= c < cols && r * cols + c < ws.len()
                ==> grid_of(ws, cols)[r][c] == printable_of(ws[r * cols + c]),
        forall|r: int, c: int|
            0 <= r < grid_of(ws, cols).len() && 0 <= c < cols && r * cols + c >= ws.len()
                ==> grid_of(ws, cols)[r][c] == Seq::<char>::empty(),
{
    assert(row_count(ws.len() as int, cols) >= 0) by (nonlinear_arith)
        requires
            cols >= 1,
            ws.len() >= 0,
    ;
    assert forall|r: int, c: int|
        0 <= r < grid_of(ws, cols).len() && 0 <= c < cols implies (r * cols + c < ws.len()
        ==> grid_of(ws, cols)[r][c] == printable_of(ws[r * cols + c])) && (r * cols + c
        >= ws.len() ==> grid_of(ws, cols)[r][c] == Seq::<char>::empty()) by {
        assert(r * cols + c >= 0) by (nonlinear_arith)
            requires
                r >= 0,
                c >= 0,
                cols >= 1,
        ;
    }
}

/// The word grid for one block, as the terminal shows it.
pub fn make_grid(words: &Vec<Word>, cols: usize) -> (rows: Vec<Vec<String>>)
    requires
        1 <= cols,
    ensures
        rows.deep_view() == grid_of(words.deep_view(), cols as int),
{
    let ghost ws = words.deep_view();
    let ghost c = cols as int;
    let n = words.len();
    let mut rows: Vec<Vec<String>> = Vec::new();
    let mut start: usize = 0;
    let ghost mut ri: int = 0;
    while start < n
        invariant
            1 <= cols,
            n == words@.len(),
            ws == words.deep_view(),
            c == cols as int,
            rows@.len() == ri,
            0 <= ri,
            start as int == if ri * c <= n as int {
                ri * c
            } else {
                n as int
            },
            ri > 0 ==> (ri - 1) * c < n as int,
            forall|rr: int|
                0 <= rr < ri ==> rows.deep_view()[rr] == Seq::new(
                    cols as nat,
                    |cc: int| cell_of(ws, rr * c + cc),
                ),
        decreases n - start,
    {
        proof {
            assert(start as int == ri * c);
        }
        let mut row: Vec<String> = Vec::new();
        let mut j: usize = 0;
        while j < cols
            invariant
                j <= cols,
                1 <= cols,
                n == words@.len(),
                ws == words.deep_view(),
                c == cols as int,
                start as int == ri * c,
                start < n,
                0 <= ri,
                row@.len() == j,
                forall|jj: int|
                    0 <= jj < j ==> row.deep_view()[jj] == cell_of(ws, ri * c + jj),
            decreases cols - j,
        {
            let ghost prevrow = row.deep_view();
            if j < n - start {
                let cell = words[start + j].get_printable();
                row.push(cell);
                proof {
                    assert(ws[start + j] == words@[start + j as int]@);
                    assert(row.deep_view() =~= prevrow.push(printable_of(ws[start + j])));
                }
            } else {
                row.push(String::new());
                proof {
                    assert(row.deep_view() =~= prevrow.push(Seq::<char>::empty()));
                }
            }
            j = j + 1;
        }
        let ghost prevrows = rows.deep_view();
        rows.push(row);
        proof {
            assert(rows.deep_view() =~~= prevrows.push(
                Seq::new(cols as nat, |cc: int| cell_of(ws, ri * c + cc)),
            ));
            assert((ri + 1) * c == ri * c + c) by (nonlinear_arith);
            ri = ri + 1;
        }
        if n - start < cols {
            start = n;
        } else {
            start = start + cols;
        }
    }
    proof {
        if ri == 0 {
            assert(n == 0);
            assert(row_count(0, c) == 0) by (nonlinear_arith)
                requires
                    c >= 1,
            ;
        } else {
            assert(ri == (n as int + c - 1) / c) by (nonlinear_arith)
                requires
                    (ri - 1) * c < n as int,
                    n as int <= ri * c,
                    c >= 1,
            ;
        }
        assert(rows.deep_view() =~~= grid_of(ws, c));
    }
    rows
}

/// One rendered block: the category header and the padded grid beneath
/// it.  A caller prints the header across the full grid width, then each
/// row, then a blank separator line.
pub struct Block {
    pub header: String,
    pub rows: Vec<Vec<String>>,
}

/// Mathematical image of a [`Block`].
#[verifier::ext_equal]
pub struct BlockV {
    pub header: Seq<char>,
    pub rows: Seq<Seq<Seq<char>>>,
}

impl View for Block {
    type V = BlockV;

    open spec fn view(&self) -> BlockV {
        BlockV { header: self.header@, rows: self.rows.deep_view() }
    }
}

impl DeepView for Block {
    type V = BlockV;

    open spec fn deep_view(&self) -> BlockV {
        self@
    }
}

/// The header line labelling one category's block.
pub open spec fn header_of(category: Seq<char>) -> Seq<char> {
    "Category: "@ + category
}

/// The block one merged group renders to.
pub open spec fn block_of(g: SynonymsV, cols: int) -> BlockV {
    BlockV { header: header_of(g.category), rows: grid_of(g.words, cols) }
}

/// The full rendering of a query's groups at a terminal width: adjacent
/// same-category groups merged, then one block per merged group.
pub open spec fn render_spec(gs: Seq<SynonymsV>, width: int) -> Seq<BlockV> {
    merge_spec(gs).map_values(|g: SynonymsV| block_of(g, spec_column_count(width)))
}

/// Lay out the groups for a terminal of the given width.
pub fn render(groups: Vec<Synonyms>, terminal_width: usize) -> (blocks: Vec<Block>)
    ensures
        blocks.deep_view() == render_spec(groups.deep_view(), terminal_width as int),
{
    let ghost ms = merge_spec(groups.deep_view());
    let ghost bmap = |g: SynonymsV| block_of(g, spec_column_count(terminal_width as int));
    let cols = column_count(terminal_width);
    let merged = merge_adjacent(groups);
    let mut blocks: Vec<Block> = Vec::new();
    let mut k: usize = 0;
    proof {
        assert(ms.take(0) =~= Seq::<SynonymsV>::empty());
        assert(blocks.deep_view() =~= ms.take(0).map_values(bmap));
    }
    while k < merged.len()
        invariant
            k <= merged@.len(),
            merged.deep_view() == ms,
            cols as int == spec_column_count(terminal_width as int),
            bmap == (|g: SynonymsV| block_of(g, spec_column_count(terminal_width as int))),
            blocks.deep_view() == ms.take(k as int).map_values(bmap),
        decreases merged@.len() - k,
    {
        let g = &merged[k];
        let mut header = String::from_str("Category: ");
        header.append(g.category.as_str());
        let rows = make_grid(&g.words, cols);
        let ghost prev = blocks.deep_view();
        blocks.push(Block { header, rows });
        proof {
            assert(merged.deep_view()[k as int] == merged@[k as int]@);
            assert(blocks.deep_view() =~~= prev.push(bmap(ms[k as int])));
            assert(ms.take(k as int + 1) =~= ms.take(k as int).push(ms[k as int]));
            assert(ms.take(k as int + 1).map_values(bmap) =~= ms.take(k as int).map_values(
                bmap,
            ).push(bmap(ms[k as int])));
        }
        k = k + 1;
    }
    proof {
        assert(ms.take(k as int) =~= ms);
    }
    blocks
}

} // verus!
