//! A second pass over an aligned block finds the block as the first pass
//! left it.

use vstd::prelude::*;
use crate::block::{block_rows, joins_block, lemma_block_rows, lemma_split_row, split_row};
use crate::collapse::{
    collapse_onto, lemma_collapse_concat, lemma_collapse_neat, lemma_collapse_spaces,
    lemma_neat_part, lemma_solid_neat, lemma_squeeze_is_collapse, lemma_squeeze_neat,
    lemma_squeeze_occurs, lemma_unblank_add, neat, unblank,
};
use crate::columns::{
    aligned_lines, column_width, concat, lemma_column_width, lemma_concat_add, lemma_concat_pair,
    lemma_concat_push, pad_cell, padded_row,
};
use crate::directive::{has_marker, marker, scan, Mode, Scan};
use crate::engine::{block_lines, run, sorts};
use crate::passes::{bodies, lemma_block_lines_members, lemma_out_lines_shape, out_lines};
use crate::sort::lemma_sorted_texts;
use crate::text::{
    find, is_blank, lemma_find, lemma_find_is, lemma_match_char, lemma_match_from_chars,
    lemma_tokens_solid, matches_at, occurs_in, solid, spaces, squeeze, text_width, tokens,
};

verus! {

/// The cells of a row, the end-of-row marker aside, make up the text that
/// was split. Where that text is neat, so is every cell; the first cell
/// begins as the text does, and the last cell before the marker ends as the
/// text does.
pub proof fn lemma_split_row_neat(s: Seq<char>, delims: Seq<Seq<char>>)
    ensures
        split_row(s, delims) matches Some(row) ==> {
            &&& concat(row.drop_last()) == s
            &&& row[0].len() > 0 ==> row[0][0] == s[0]
            &&& row[row.len() - 2].len() > 0 ==> row[row.len() - 2].last() == s.last()
            &&& neat(s) ==> forall|j: int| 0 <= j < row.len() - 1 ==> neat(#[trigger] row[j])
        },
    decreases delims.len(),
{
    if delims.len() == 0 {
        let row = seq![s, "\n"@];
        assert(row.drop_last() =~= seq![s]);
        lemma_concat_pair(s, s);
        assert(row[0] == s);
    } else {
        lemma_find(s, delims[0]);
        match find(s, delims[0]) {
            None => {},
            Some(i) => {
                let d = delims[0];
                let tail = s.skip(i + d.len());
                lemma_split_row_neat(tail, delims.drop_first());
                lemma_split_row(tail, delims.drop_first());
                match split_row(tail, delims.drop_first()) {
                    None => {},
                    Some(rest) => {
                        let head = seq![s.take(i), d];
                        let row = head + rest;
                        assert(d =~= s.subrange(i, i + d.len()));
                        assert(row.drop_last() =~= head + rest.drop_last());
                        lemma_concat_add(head, rest.drop_last());
                        lemma_concat_pair(s.take(i), d);
                        assert(s.take(i) + d + tail =~= s);
                        assert(row[row.len() - 2] == rest[rest.len() - 2]);
                        if tail.len() > 0 {
                            assert(tail.last() == s.last());
                        }
                        if neat(s) {
                            lemma_neat_part(s, 0, i);
                            lemma_neat_part(s, i, i + d.len());
                            lemma_neat_part(s, i + d.len(), s.len() as int);
                            assert(tail =~= s.subrange(i + d.len(), s.len() as int));
                            assert(s.take(i) =~= s.subrange(0, i));
                            assert forall|j: int| 0 <= j < row.len() - 1 implies neat(
                                #[trigger] row[j],
                            ) by {
                                if j >= 2 {
                                    assert(row[j] == rest[j - 2]);
                                }
                            }
                        }
                    },
                }
            },
        }
    }
}

/// `wide` is `cell` with nothing but spaces after it.
pub open spec fn widens(cell: Seq<char>, wide: Seq<char>) -> bool {
    &&& wide.len() >= cell.len()
    &&& wide.take(cell.len() as int) == cell
    &&& forall|k: int| cell.len() <= k < wide.len() ==> wide[k] == ' '
}

/// `again` is `row` with spaces after some of the cells that stand before
/// delimiters, and nothing else changed.
pub open spec fn echoes(row: Seq<Seq<char>>, again: Seq<Seq<char>>) -> bool {
    &&& again.len() == row.len()
    &&& forall|j: int|
        0 <= j < row.len() - 2 && j % 2 == 0 ==> widens(row[j], #[trigger] again[j])
    &&& forall|j: int|
        0 <= j < row.len() && (j % 2 == 1 || j >= row.len() - 2) ==> #[trigger] again[j]
            == row[j]
}

/// Where a solid text occurs, no blank stands.
proof fn lemma_match_is_solid(text: Seq<char>, d: Seq<char>, j: int, at: int)
    requires
        solid(d),
        matches_at(text, d, j),
        j <= at < j + d.len(),
    ensures
        !is_blank(text[at]),
{
    lemma_match_char(text, d, j, at - j);
    assert(!is_blank(d[at - j]));
}

/// The core of `lemma_find_after_spaces`, for a text that is known
/// character by character: it begins as `s` does up to index `i`, goes on
/// with spaces up to index `n`, and has `d` there.
proof fn lemma_no_match_core(
    s: Seq<char>,
    d: Seq<char>,
    i: int,
    text: Seq<char>,
    n: int,
    j: int,
)
    requires
        solid(d),
        matches_at(s, d, i),
        0 <= j < n,
        i <= n,
        n + d.len() <= text.len(),
        matches_at(text, d, j),
        forall|k: int| 0 <= k < i ==> #[trigger] text[k] == s[k],
        forall|k: int| i <= k < n ==> #[trigger] text[k] == ' ',
        forall|k: int| 0 <= k < d.len() ==> text[n + k] == #[trigger] d[k],
    ensures
        j < i,
        matches_at(s, d, j),
{
    if j >= i {
        lemma_match_is_solid(text, d, j, j);
    } else if n > i && j + d.len() > i {
        lemma_match_is_solid(text, d, j, i);
    } else {
        assert forall|k: int| 0 <= k < d.len() implies s[j + k] == d[k] by {
            lemma_match_char(text, d, j, k);
            if j + k < i {
                assert(text[j + k] == s[j + k]);
            } else {
                assert(text[n + (j + k - i)] == d[j + k - i]);
                lemma_match_char(s, d, i, j + k - i);
            }
        }
        lemma_match_from_chars(s, d, j);
    }
}

/// The step of `lemma_find_after_spaces`: `d` does not occur before the
/// end of `wide`.
proof fn lemma_no_match_in_spaces(
    s: Seq<char>,
    d: Seq<char>,
    i: int,
    wide: Seq<char>,
    after: Seq<char>,
    j: int,
)
    requires
        solid(d),
        matches_at(s, d, i),
        widens(s.take(i), wide),
        0 <= j < wide.len(),
        matches_at(wide + d + after, d, j),
    ensures
        j < i,
        matches_at(s, d, j),
{
    let text = wide + d + after;
    let n = wide.len() as int;
    assert forall|k: int| 0 <= k < i implies #[trigger] text[k] == s[k] by {
        assert(wide.take(i)[k] == wide[k]);
        assert(s.take(i)[k] == s[k]);
    }
    assert forall|k: int| i <= k < n implies #[trigger] text[k] == ' ' by {
        assert(text[k] == wide[k]);
    }
    assert forall|k: int| 0 <= k < d.len() implies text[n + k] == #[trigger] d[k] by {}
    lemma_no_match_core(s, d, i, text, n, j);
}

/// Where `d` is first found in `s` at index `i`, it is first found right
/// after `wide` in a text that begins with `wide` and `d`, if `wide` is the
/// text before index `i` with nothing but spaces after it.
pub proof fn lemma_find_after_spaces(
    s: Seq<char>,
    d: Seq<char>,
    i: int,
    wide: Seq<char>,
    after: Seq<char>,
)
    requires
        solid(d),
        matches_at(s, d, i),
        forall|j: int| 0 <= j < i ==> !matches_at(s, d, j),
        widens(s.take(i), wide),
    ensures
        find(wide + d + after, d) == Some(wide.len() as int),
{
    let text = wide + d + after;
    assert(matches_at(text, d, wide.len() as int)) by {
        assert(text.subrange(wide.len() as int, (wide.len() + d.len()) as int) =~= d);
    }
    assert forall|j: int| 0 <= j < wide.len() implies !matches_at(text, d, j) by {
        if matches_at(text, d, j) {
            lemma_no_match_in_spaces(s, d, i, wide, after, j);
        }
    }
    lemma_find_is(text, d, wide.len() as int);
}

/// What is left of a row and of its echo after the first two cells of each
/// is a row and its echo.
pub proof fn lemma_echoes_rest(row: Seq<Seq<char>>, again: Seq<Seq<char>>)
    requires
        echoes(row, again),
        row.len() >= 4,
    ensures
        echoes(row.skip(2), again.skip(2)),
        widens(row[0], again[0]),
        again[1] == row[1],
{
    let rest = row.skip(2);
    let again_rest = again.skip(2);
    assert forall|j: int| 0 <= j < rest.len() - 2 && j % 2 == 0 implies widens(
        rest[j],
        #[trigger] again_rest[j],
    ) by {
        assert(again_rest[j] == again[j + 2]);
    }
    assert forall|j: int|
        0 <= j < rest.len() && (j % 2 == 1 || j >= rest.len() - 2) implies #[trigger] again_rest[j]
        == rest[j] by {
        assert(again_rest[j] == again[j + 2]);
    }
}

/// A row whose cells before the delimiters have spaces added comes out
/// of its own text again: the text made of its cells splits into these
/// cells.
pub proof fn lemma_resplit(
    s: Seq<char>,
    delims: Seq<Seq<char>>,
    row: Seq<Seq<char>>,
    again: Seq<Seq<char>>,
)
    requires
        split_row(s, delims) == Some(row),
        echoes(row, again),
        forall|k: int| 0 <= k < delims.len() ==> solid(#[trigger] delims[k]),
    ensures
        split_row(concat(again.drop_last()), delims) == Some(again),
    decreases delims.len(),
{
    lemma_split_row(s, delims);
    if delims.len() == 0 {
        assert(again =~= row);
        assert(again.drop_last() =~= seq![s]);
        lemma_concat_pair(s, s);
    } else {
        lemma_find(s, delims[0]);
        let d = delims[0];
        let i = find(s, d).unwrap();
        let tail = s.skip(i + d.len());
        let rest = split_row(tail, delims.drop_first()).unwrap();
        assert(row == seq![s.take(i), d] + rest);
        assert(row.skip(2) =~= rest);
        assert(row[0] == s.take(i));
        assert(row[1] == d);
        lemma_echoes_rest(row, again);
        let wide = again[0];
        let again_rest = again.skip(2);
        assert forall|k: int| 0 <= k < delims.drop_first().len() implies solid(
            #[trigger] delims.drop_first()[k],
        ) by {
            assert(delims.drop_first()[k] == delims[k + 1]);
        }
        lemma_resplit(tail, delims.drop_first(), rest, again_rest);
        let text_rest = concat(again_rest.drop_last());
        let text = concat(again.drop_last());
        assert(again.drop_last() =~= seq![wide, d] + again_rest.drop_last());
        lemma_concat_add(seq![wide, d], again_rest.drop_last());
        lemma_concat_pair(wide, d);
        assert(text == wide + d + text_rest);
        assert(solid(delims[0]));
        lemma_find_after_spaces(s, d, i, wide, text_rest);
        assert(text.take(wide.len() as int) =~= wide);
        assert(text.skip((wide.len() + d.len()) as int) =~= text_rest);
        assert(again =~= seq![wide, d] + again_rest);
    }
}

/// What becomes of a cell before a delimiter when its line is aligned and
/// then has its whitespace collapsed: where the cell was padded, one space
/// stands after it, unless it ended in a space, or was empty and at the
/// start of the line.
pub open spec fn re_cell(cell: Seq<char>, width: nat, first: bool) -> Seq<char> {
    if text_width(cell) < width && !(cell.len() > 0 && cell.last() == ' ') && !(first
        && cell.len() == 0) {
        cell.push(' ')
    } else {
        cell
    }
}

/// What becomes of row `r` when its line is aligned and then has its
/// whitespace collapsed.
pub open spec fn re_row(rows: Seq<Seq<Seq<char>>>, r: int) -> Seq<Seq<char>> {
    Seq::new(
        rows[r].len(),
        |j: int|
            if j < rows[r].len() - 2 && j % 2 == 0 {
                re_cell(rows[r][j], column_width(rows, j), j == 0)
            } else {
                rows[r][j]
            },
    )
}

/// Row `r` of `rows` is the row of the collapsed text `s` under `delims`,
/// and the delimiter columns of `rows` are as wide as their delimiters.
pub open spec fn row_of(
    rows: Seq<Seq<Seq<char>>>,
    r: int,
    s: Seq<char>,
    delims: Seq<Seq<char>>,
) -> bool {
    &&& 0 <= r < rows.len()
    &&& split_row(s, delims) == Some(rows[r])
    &&& neat(s)
    &&& s.len() > 0 ==> s[0] != ' ' && s.last() != ' '
    &&& delims.len() > 0
    &&& forall|k: int| 0 <= k < delims.len() ==> solid(#[trigger] delims[k])
    &&& forall|k: int|
        0 <= k < delims.len() ==> column_width(rows, 2 * k + 1) == text_width(#[trigger] delims[k])
}

/// The padded cells of a row up to its `i`-th delimiter collapse to its
/// cells with at most one space after each.
proof fn lemma_collapse_cells(
    rows: Seq<Seq<Seq<char>>>,
    r: int,
    s: Seq<char>,
    delims: Seq<Seq<char>>,
    i: int,
)
    requires
        row_of(rows, r, s, delims),
        0 <= i <= delims.len(),
    ensures
        collapse_onto(Seq::empty(), concat(padded_row(rows, r).take(2 * i))) == concat(
            re_row(rows, r).take(2 * i),
        ),
        i >= 1 ==> concat(re_row(rows, r).take(2 * i)).len() > 0 && !is_blank(
            concat(re_row(rows, r).take(2 * i)).last(),
        ),
    decreases i,
{
    let padded = padded_row(rows, r);
    let again = re_row(rows, r);
    let row = rows[r];
    lemma_split_row(s, delims);
    lemma_split_row_neat(s, delims);
    if i == 0 {
        assert(padded.take(0) =~= Seq::<Seq<char>>::empty());
        assert(again.take(0) =~= Seq::<Seq<char>>::empty());
    } else {
        lemma_collapse_cells(rows, r, s, delims, i - 1);
        let j0 = 2 * (i - 1);
        let j1 = j0 + 1;
        let v = concat(again.take(j0));
        let x = row[j0];
        let d = row[j1];
        let w = column_width(rows, j0);
        assert(d == row[2 * (i - 1) + 1]);
        assert(d == delims[i - 1]);
        assert(solid(delims[i - 1]));
        assert(column_width(rows, 2 * (i - 1) + 1) == text_width(delims[i - 1]));
        assert(neat(row[j0]));
        assert(padded[j1] == d);
        assert(again[j1] == d);
        assert(again[j0] == re_cell(x, w, j0 == 0));
        assert(padded[j0] == pad_cell(x, w));
        assert(padded.take(2 * i) =~= padded.take(j0).push(padded[j0]).push(padded[j1]));
        assert(again.take(2 * i) =~= again.take(j0).push(again[j0]).push(again[j1]));
        lemma_concat_push(padded.take(j0), padded[j0]);
        lemma_concat_push(padded.take(j0).push(padded[j0]), padded[j1]);
        lemma_concat_push(again.take(j0), again[j0]);
        lemma_concat_push(again.take(j0).push(again[j0]), again[j1]);
        let before = concat(padded.take(j0));
        lemma_collapse_concat(Seq::empty(), before + padded[j0], padded[j1]);
        lemma_collapse_concat(Seq::empty(), before, padded[j0]);
        if x.len() > 0 && j0 == 0 {
            assert(x[0] == s[0]);
        }
        lemma_collapse_neat(v, x);
        let vx = collapse_onto(v, padded[j0]);
        assert(vx == v + again[j0]) by {
            if text_width(x) < w {
                let gap = (w - text_width(x)) as nat;
                lemma_collapse_concat(v, x, spaces(gap));
                lemma_collapse_spaces(v + x, gap);
                if x.len() > 0 {
                    assert((v + x).last() == x.last());
                }
                assert((v + x).push(' ') =~= v + x.push(' '));
            }
        }
        lemma_solid_neat(d);
        lemma_collapse_neat(vx, d);
        assert((vx + d).last() == d.last());
    }
}

/// The line of a row, without the end-of-row marker and with its
/// whitespace collapsed, is made of the cells of the row with at most one
/// space after each.
pub proof fn lemma_collapse_row(
    rows: Seq<Seq<Seq<char>>>,
    r: int,
    s: Seq<char>,
    delims: Seq<Seq<char>>,
)
    requires
        row_of(rows, r, s, delims),
    ensures
        squeeze(concat(padded_row(rows, r).drop_last())) == concat(re_row(rows, r).drop_last()),
{
    let padded = padded_row(rows, r);
    let again = re_row(rows, r);
    let row = rows[r];
    let m = row.len() as int;
    lemma_split_row(s, delims);
    lemma_split_row_neat(s, delims);
    lemma_collapse_cells(rows, r, s, delims, delims.len() as int);
    let v = concat(again.take(m - 2));
    let rest = row[m - 2];
    assert(neat(row[m - 2]));
    assert(padded[m - 2] == rest);
    assert(again[m - 2] == rest);
    assert(padded.drop_last() =~= padded.take(m - 2).push(rest));
    assert(again.drop_last() =~= again.take(m - 2).push(rest));
    lemma_concat_push(padded.take(m - 2), rest);
    lemma_concat_push(again.take(m - 2), rest);
    lemma_collapse_concat(Seq::empty(), concat(padded.take(m - 2)), rest);
    lemma_collapse_neat(v, rest);
    lemma_squeeze_is_collapse(concat(padded.drop_last()));
    if rest.len() > 0 {
        assert((v + rest).last() == rest.last());
    } else {
        assert(v + rest =~= v);
    }
}

/// A solid text that occurs in a text occurs in it still when spaces are
/// taken out of it at one place.
pub proof fn lemma_spaces_keep_out(
    left: Seq<char>,
    cell: Seq<char>,
    wide: Seq<char>,
    right: Seq<char>,
    p: Seq<char>,
)
    requires
        solid(p),
        widens(cell, wide),
        occurs_in(left + wide + right, p),
    ensures
        occurs_in(left + cell + right, p),
{
    let from = left + wide + right;
    let to = left + cell + right;
    let i = choose|i: int| matches_at(from, p, i);
    let cut = left.len() + cell.len();
    let gap = wide.len() - cell.len();
    if gap == 0 {
        assert(wide =~= cell);
    } else if i + p.len() <= cut {
        assert forall|k: int| 0 <= k < p.len() implies to[i + k] == p[k] by {
            lemma_match_char(from, p, i, k);
            if i + k >= left.len() {
                assert(wide.take(cell.len() as int)[i + k - left.len()] == cell[i + k
                    - left.len()]);
            }
        }
        lemma_match_from_chars(to, p, i);
    } else if i >= cut + gap {
        assert forall|k: int| 0 <= k < p.len() implies to[i - gap + k] == p[k] by {
            lemma_match_char(from, p, i, k);
        }
        lemma_match_from_chars(to, p, i - gap);
    } else {
        let k = if i >= cut {
            0
        } else {
            cut - i
        };
        lemma_match_char(from, p, i, k);
        assert(from[i + k] == wide[i + k - left.len()]);
        assert(!is_blank(p[k]));
        assert(false);
    }
}

/// A solid text that occurs in the text of cells with spaces after them
/// occurs in the text of the cells.
pub proof fn lemma_padding_keeps_out(
    cells: Seq<Seq<char>>,
    wide: Seq<Seq<char>>,
    p: Seq<char>,
    n: int,
)
    requires
        solid(p),
        cells.len() == wide.len(),
        forall|j: int| 0 <= j < cells.len() ==> widens(cells[j], #[trigger] wide[j]),
        0 <= n <= cells.len(),
        occurs_in(concat(wide.take(n)) + concat(cells.skip(n)), p),
    ensures
        occurs_in(concat(cells), p),
    decreases n,
{
    if n == 0 {
        assert(wide.take(0) =~= Seq::<Seq<char>>::empty());
        assert(cells.skip(0) =~= cells);
        assert(concat(wide.take(0)) + concat(cells) =~= concat(cells));
    } else {
        let left = concat(wide.take(n - 1));
        let right = concat(cells.skip(n));
        assert(wide.take(n) =~= wide.take(n - 1).push(wide[n - 1]));
        lemma_concat_push(wide.take(n - 1), wide[n - 1]);
        assert(cells.skip(n - 1) =~= seq![cells[n - 1]] + cells.skip(n));
        lemma_concat_add(seq![cells[n - 1]], cells.skip(n));
        lemma_concat_pair(cells[n - 1], cells[n - 1]);
        assert(widens(cells[n - 1], wide[n - 1]));
        lemma_spaces_keep_out(left, cells[n - 1], wide[n - 1], right, p);
        assert(left + cells[n - 1] + right =~= left + (cells[n - 1] + right));
        lemma_padding_keeps_out(cells, wide, p, n - 1);
    }
}

/// The marker is solid.
pub proof fn lemma_marker_solid()
    ensures
        solid(marker()),
{
    reveal_strlit("align_by");
}

/// Every row of a block has the delimiters in its cells of odd index, so
/// the columns of odd index are as wide as the delimiters.
pub proof fn lemma_delimiter_columns(
    lines: Seq<Seq<char>>,
    start: int,
    delims: Seq<Seq<char>>,
    k: int,
)
    requires
        0 <= start <= lines.len(),
        block_rows(lines, start, delims).len() > 0,
        0 <= k < delims.len(),
    ensures
        column_width(block_rows(lines, start, delims), 2 * k + 1) == text_width(delims[k]),
{
    let rows = block_rows(lines, start, delims);
    lemma_block_rows(lines, start, delims);
    lemma_column_width(rows, 2 * k + 1);
    let r = choose|r: int|
        0 <= r < rows.len() && text_width(#[trigger] rows[r][2 * k + 1]) == column_width(
            rows,
            2 * k + 1,
        );
    assert(joins_block(lines[start + r], delims));
    lemma_split_row(squeeze(lines[start + r]), delims);
    assert(rows[r][2 * k + 1] == delims[k]);
}

/// Row `r` of a block is the row of its line with the whitespace
/// collapsed.
pub proof fn lemma_block_row_of(
    lines: Seq<Seq<char>>,
    start: int,
    delims: Seq<Seq<char>>,
    r: int,
)
    requires
        0 <= start <= lines.len(),
        delims.len() > 0,
        forall|k: int| 0 <= k < delims.len() ==> solid(#[trigger] delims[k]),
        0 <= r < block_rows(lines, start, delims).len(),
    ensures
        row_of(block_rows(lines, start, delims), r, squeeze(lines[start + r]), delims),
        !has_marker(lines[start + r]),
{
    let rows = block_rows(lines, start, delims);
    lemma_block_rows(lines, start, delims);
    assert(joins_block(lines[start + r], delims));
    lemma_squeeze_neat(lines[start + r]);
    assert forall|k: int| 0 <= k < delims.len() implies column_width(rows, 2 * k + 1)
        == text_width(#[trigger] delims[k]) by {
        lemma_delimiter_columns(lines, start, delims, k);
    }
}

/// The padded cells of a row are its cells with nothing but spaces after
/// them.
pub proof fn lemma_padded_widens(rows: Seq<Seq<Seq<char>>>, r: int, j: int)
    requires
        0 <= r < rows.len(),
        0 <= j < rows[r].len(),
    ensures
        widens(rows[r][j], padded_row(rows, r)[j]),
{
    let cell = rows[r][j];
    let wide = padded_row(rows, r)[j];
    assert(wide.take(cell.len() as int) =~= cell);
}

/// The row that a line has after it was aligned echoes the row that it had
/// before.
pub proof fn lemma_re_row_echoes(rows: Seq<Seq<Seq<char>>>, r: int)
    requires
        0 <= r < rows.len(),
    ensures
        echoes(rows[r], re_row(rows, r)),
{
    let row = rows[r];
    let again = re_row(rows, r);
    assert forall|j: int| 0 <= j < row.len() - 2 && j % 2 == 0 implies widens(
        row[j],
        #[trigger] again[j],
    ) by {
        assert(again[j].take(row[j].len() as int) =~= row[j]);
    }
}

/// A line of a block that has been aligned can join the block as before:
/// without its end-of-row marker it does not hold the directive marker,
/// and with its whitespace collapsed it splits into the cells that it had,
/// with at most one space after each.
pub proof fn lemma_aligned_line_joins(
    lines: Seq<Seq<char>>,
    start: int,
    delims: Seq<Seq<char>>,
    r: int,
)
    requires
        0 <= start <= lines.len(),
        delims.len() > 0,
        forall|k: int| 0 <= k < delims.len() ==> solid(#[trigger] delims[k]),
        0 <= r < block_rows(lines, start, delims).len(),
    ensures
        !has_marker(aligned_lines(block_rows(lines, start, delims))[r].drop_last()),
        split_row(
            squeeze(aligned_lines(block_rows(lines, start, delims))[r].drop_last()),
            delims,
        ) == Some(re_row(block_rows(lines, start, delims), r)),
{
    let rows = block_rows(lines, start, delims);
    let row = rows[r];
    let padded = padded_row(rows, r);
    let text = squeeze(lines[start + r]);
    lemma_block_row_of(lines, start, delims, r);
    lemma_split_row(text, delims);
    lemma_split_row_neat(text, delims);
    let body = concat(padded.drop_last());
    assert(padded =~= padded.drop_last().push(padded.last()));
    lemma_concat_push(padded.drop_last(), padded.last());
    assert(padded.last() == row.last());
    reveal_strlit("\n");
    assert(aligned_lines(rows)[r].drop_last() =~= body);
    lemma_collapse_row(rows, r, text, delims);
    lemma_re_row_echoes(rows, r);
    lemma_resplit(text, delims, row, re_row(rows, r));
    if has_marker(body) {
        lemma_find(body, marker());
        lemma_marker_solid();
        assert forall|j: int| 0 <= j < row.drop_last().len() implies widens(
            row.drop_last()[j],
            #[trigger] padded.drop_last()[j],
        ) by {
            lemma_padded_widens(rows, r, j);
        }
        assert(padded.drop_last().take(padded.len() - 1) =~= padded.drop_last());
        assert(row.drop_last().skip(row.len() - 1) =~= Seq::<Seq<char>>::empty());
        assert(body + concat(row.drop_last().skip(row.len() - 1)) =~= body);
        lemma_padding_keeps_out(row.drop_last(), padded.drop_last(), marker(), row.len() - 1);
        lemma_squeeze_occurs(lines[start + r], marker());
        lemma_find(lines[start + r], marker());
    }
}

/// Where each of `n` lines from `start` on can join the block and the line
/// after them cannot, the block has `n` rows.
pub proof fn lemma_block_rows_count(
    lines: Seq<Seq<char>>,
    start: int,
    delims: Seq<Seq<char>>,
    n: int,
)
    requires
        0 <= start,
        0 <= n,
        start + n <= lines.len(),
        forall|r: int| 0 <= r < n ==> joins_block(#[trigger] lines[start + r], delims),
        start + n < lines.len() ==> !joins_block(lines[start + n], delims),
    ensures
        block_rows(lines, start, delims).len() == n,
    decreases n,
{
    if n > 0 {
        assert(joins_block(lines[start + 0], delims));
        assert forall|r: int| 0 <= r < n - 1 implies joins_block(
            #[trigger] lines[start + 1 + r],
            delims,
        ) by {
            assert(joins_block(lines[start + (r + 1)], delims));
        }
        lemma_block_rows_count(lines, start + 1, delims, n - 1);
    }
}

/// What a padded cell is after a second pass: no wider than its column,
/// and padded to the width of the column it is the cell that it was.
pub proof fn lemma_re_cell(cell: Seq<char>, width: nat, first: bool)
    requires
        text_width(cell) <= width,
    ensures
        text_width(re_cell(cell, width, first)) <= width,
        text_width(cell) == width ==> re_cell(cell, width, first) == cell,
        pad_cell(re_cell(cell, width, first), width) == pad_cell(cell, width),
{
    let again = re_cell(cell, width, first);
    if again != cell {
        assert(again.drop_last() =~= cell);
        let gap = (width - text_width(cell)) as nat;
        if text_width(again) < width {
            assert(cell.push(' ') + spaces((gap - 1) as nat) =~= cell + spaces(gap));
        } else {
            assert(cell.push(' ') =~= cell + spaces(gap));
        }
    }
}

/// The lines of a block that has been aligned make the same block again:
/// as many rows, and each the row of its line with at most one space after
/// each cell.
pub proof fn lemma_again_rows(
    lines: Seq<Seq<char>>,
    again: Seq<Seq<char>>,
    start: int,
    delims: Seq<Seq<char>>,
    mode: Mode,
)
    requires
        0 <= start <= lines.len(),
        again.len() == lines.len(),
        delims.len() > 0,
        forall|k: int| 0 <= k < delims.len() ==> solid(#[trigger] delims[k]),
        forall|i: int|
            0 <= i < block_rows(lines, start, delims).len() ==> #[trigger] again[start + i]
                == block_lines(block_rows(lines, start, delims), mode)[i].drop_last(),
        start + block_rows(lines, start, delims).len() < lines.len() ==> again[start
            + block_rows(lines, start, delims).len()] == lines[start + block_rows(
            lines,
            start,
            delims,
        ).len()],
    ensures
        block_rows(again, start, delims).len() == block_rows(lines, start, delims).len(),
        forall|i: int, r: int|
            0 <= i < block_rows(lines, start, delims).len() && 0 <= r < block_rows(
                lines,
                start,
                delims,
            ).len() && aligned_lines(block_rows(lines, start, delims))[r] == block_lines(
                block_rows(lines, start, delims),
                mode,
            )[i] ==> #[trigger] block_rows(again, start, delims)[i] == #[trigger] re_row(
                block_rows(lines, start, delims),
                r,
            ),
{
    let rows = block_rows(lines, start, delims);
    let n = rows.len() as int;
    let plain = aligned_lines(rows);
    let out = block_lines(rows, mode);
    lemma_block_rows(lines, start, delims);
    lemma_block_lines_members(rows, mode);
    assert forall|i: int| 0 <= i < n implies joins_block(#[trigger] again[start + i], delims) by {
        assert(plain.contains(out[i]));
        let r = choose|r: int| 0 <= r < plain.len() && plain[r] == out[i];
        lemma_aligned_line_joins(lines, start, delims, r);
    }
    lemma_block_rows_count(again, start, delims, n);
    lemma_block_rows(again, start, delims);
    let rows2 = block_rows(again, start, delims);
    assert forall|i: int, r: int|
        0 <= i < n && 0 <= r < n && plain[r] == out[i] implies #[trigger] rows2[i]
        == #[trigger] re_row(rows, r) by {
        lemma_aligned_line_joins(lines, start, delims, r);
        assert(joins_block(again[start + i], delims));
    }
}

/// The cells of the row that a line has after its block was aligned, held
/// against the width of their column before.
pub proof fn lemma_re_row_cells(
    lines: Seq<Seq<char>>,
    start: int,
    delims: Seq<Seq<char>>,
    r: int,
    j: int,
)
    requires
        0 <= start <= lines.len(),
        0 <= r < block_rows(lines, start, delims).len(),
        0 <= j < 2 * delims.len() + 2,
    ensures
        ({
            let rows = block_rows(lines, start, delims);
            let width = column_width(rows, j);
            &&& rows[r].len() == 2 * delims.len() + 2
            &&& re_row(rows, r).len() == 2 * delims.len() + 2
            &&& j < 2 * delims.len() ==> text_width(re_row(rows, r)[j]) <= width
            &&& j < 2 * delims.len() && text_width(rows[r][j]) == width ==> re_row(rows, r)[j]
                == rows[r][j]
            &&& j < 2 * delims.len() ==> pad_cell(re_row(rows, r)[j], width) == pad_cell(
                rows[r][j],
                width,
            )
            &&& j >= 2 * delims.len() ==> re_row(rows, r)[j] == rows[r][j]
        }),
{
    let rows = block_rows(lines, start, delims);
    lemma_block_rows(lines, start, delims);
    assert(joins_block(lines[start + r], delims));
    lemma_split_row(squeeze(lines[start + r]), delims);
    lemma_column_width(rows, j);
    if j < 2 * delims.len() && j % 2 == 0 {
        lemma_re_cell(rows[r][j], column_width(rows, j), j == 0);
    }
}

/// A second pass finds the columns of a block as wide as the first pass
/// made them.
pub proof fn lemma_again_widths(
    lines: Seq<Seq<char>>,
    again: Seq<Seq<char>>,
    start: int,
    delims: Seq<Seq<char>>,
    mode: Mode,
    j: int,
)
    requires
        0 <= start <= lines.len(),
        again.len() == lines.len(),
        delims.len() > 0,
        forall|k: int| 0 <= k < delims.len() ==> solid(#[trigger] delims[k]),
        forall|i: int|
            0 <= i < block_rows(lines, start, delims).len() ==> #[trigger] again[start + i]
                == block_lines(block_rows(lines, start, delims), mode)[i].drop_last(),
        start + block_rows(lines, start, delims).len() < lines.len() ==> again[start
            + block_rows(lines, start, delims).len()] == lines[start + block_rows(
            lines,
            start,
            delims,
        ).len()],
        0 <= j < 2 * delims.len(),
    ensures
        column_width(block_rows(again, start, delims), j) == column_width(
            block_rows(lines, start, delims),
            j,
        ),
{
    let rows = block_rows(lines, start, delims);
    let rows2 = block_rows(again, start, delims);
    let plain = aligned_lines(rows);
    let out = block_lines(rows, mode);
    lemma_again_rows(lines, again, start, delims, mode);
    lemma_block_lines_members(rows, mode);
    lemma_column_width(rows, j);
    lemma_column_width(rows2, j);
    if rows.len() > 0 {
        let i2 = choose|i: int|
            0 <= i < rows2.len() && text_width(#[trigger] rows2[i][j]) == column_width(rows2, j);
        assert(plain.contains(out[i2]));
        let r2 = choose|r: int| 0 <= r < plain.len() && plain[r] == out[i2];
        assert(rows2[i2] == re_row(rows, r2));
        lemma_re_row_cells(lines, start, delims, r2, j);
        let r1 = choose|r: int|
            0 <= r < rows.len() && text_width(#[trigger] rows[r][j]) == column_width(rows, j);
        assert(out.contains(plain[r1]));
        let i1 = choose|i: int| 0 <= i < out.len() && out[i] == plain[r1];
        assert(rows2[i1] == re_row(rows, r1));
        lemma_re_row_cells(lines, start, delims, r1, j);
        assert(text_width(rows2[i1][j]) <= column_width(rows2, j));
    }
}

/// A second pass over a block that has been aligned puts out the lines
/// that it was given.
pub proof fn lemma_block_again(
    lines: Seq<Seq<char>>,
    again: Seq<Seq<char>>,
    start: int,
    delims: Seq<Seq<char>>,
    mode: Mode,
)
    requires
        0 <= start <= lines.len(),
        again.len() == lines.len(),
        delims.len() > 0,
        forall|k: int| 0 <= k < delims.len() ==> solid(#[trigger] delims[k]),
        forall|i: int|
            0 <= i < block_rows(lines, start, delims).len() ==> #[trigger] again[start + i]
                == block_lines(block_rows(lines, start, delims), mode)[i].drop_last(),
        start + block_rows(lines, start, delims).len() < lines.len() ==> again[start
            + block_rows(lines, start, delims).len()] == lines[start + block_rows(
            lines,
            start,
            delims,
        ).len()],
    ensures
        block_rows(again, start, delims).len() == block_rows(lines, start, delims).len(),
        block_lines(block_rows(again, start, delims), mode) == block_lines(
            block_rows(lines, start, delims),
            mode,
        ),
{
    let rows = block_rows(lines, start, delims);
    let rows2 = block_rows(again, start, delims);
    let plain = aligned_lines(rows);
    let out = block_lines(rows, mode);
    let m = 2 * delims.len() + 2;
    lemma_again_rows(lines, again, start, delims, mode);
    lemma_block_lines_members(rows, mode);
    assert forall|i: int| 0 <= i < rows.len() implies #[trigger] aligned_lines(rows2)[i]
        == out[i] by {
        assert(plain.contains(out[i]));
        let r = choose|r: int| 0 <= r < plain.len() && plain[r] == out[i];
        assert(rows2[i] == re_row(rows, r));
        lemma_re_row_cells(lines, start, delims, r, 0);
        assert forall|j: int| 0 <= j < m implies padded_row(rows2, i)[j] == padded_row(
            rows,
            r,
        )[j] by {
            lemma_re_row_cells(lines, start, delims, r, j);
            if j < m - 2 {
                lemma_again_widths(lines, again, start, delims, mode, j);
            }
        }
        assert(padded_row(rows2, i) =~= padded_row(rows, r));
    }
    assert(aligned_lines(rows2) =~= out);
    if sorts(mode) {
        lemma_sorted_texts(out);
    }
}

/// A second pass: over the lines that a pass has put out, a pass in the
/// same state puts out the same text, whatever the terminator.
pub proof fn lemma_run_again(
    lines: Seq<Seq<char>>,
    again: Seq<Seq<char>>,
    at: int,
    paused: bool,
    newline: Seq<char>,
)
    requires
        0 <= at <= lines.len(),
        again.len() == lines.len(),
        run(lines, at, paused, newline) is Ok,
        again.skip(at) == out_lines(lines, at, paused),
    ensures
        run(again, at, paused, newline) == run(lines, at, paused, newline),
    decreases lines.len() - at,
{
    if at < lines.len() {
        let line = lines[at];
        lemma_out_lines_shape(lines, at, paused, newline);
        assert(again.skip(at)[0] == again[at]);
        assert(again[at] == line);
        match scan(line) {
            Scan::Malformed { column, reason } => {
                if paused && reason.in_list() {
                    let rest = out_lines(lines, at + 1, paused);
                    assert((seq![line] + rest).skip(1) =~= rest);
                    lemma_again_step(lines, again, at, 1, paused, paused, newline);
                }
            },
            Scan::Cancel => {},
            Scan::Plain => {
                let rest = out_lines(lines, at + 1, paused);
                assert((seq![line] + rest).skip(1) =~= rest);
                lemma_again_step(lines, again, at, 1, paused, paused, newline);
            },
            Scan::Pause => {
                let rest = out_lines(lines, at + 1, true);
                assert((seq![line] + rest).skip(1) =~= rest);
                lemma_again_step(lines, again, at, 1, paused, true, newline);
            },
            Scan::Resume => {
                let rest = out_lines(lines, at + 1, false);
                assert((seq![line] + rest).skip(1) =~= rest);
                lemma_again_step(lines, again, at, 1, paused, false, newline);
            },
            Scan::Delimiters { mode, literal } => {
                if paused || tokens(literal).len() == 0 {
                    let rest = out_lines(lines, at + 1, paused);
                    assert((seq![line] + rest).skip(1) =~= rest);
                    lemma_again_step(lines, again, at, 1, paused, paused, newline);
                } else {
                    let delims = tokens(literal);
                    let rows = block_rows(lines, at + 1, delims);
                    let block = block_lines(rows, mode);
                    let n = rows.len() as int;
                    lemma_block_rows(lines, at + 1, delims);
                    lemma_tokens_solid(literal);
                    lemma_block_lines_members(rows, mode);
                    let rest = out_lines(lines, at + 1 + n, paused);
                    assert(out_lines(lines, at, paused) == seq![line] + bodies(block) + rest);
                    assert forall|i: int| 0 <= i < n implies #[trigger] again[at + 1 + i]
                        == block[i].drop_last() by {
                        assert(again.skip(at)[1 + i] == again[at + 1 + i]);
                        assert((seq![line] + bodies(block) + rest)[1 + i] == bodies(block)[i]);
                    }
                    assert((seq![line] + bodies(block) + rest).skip(1 + n) =~= rest);
                    lemma_again_step(lines, again, at, 1 + n, paused, paused, newline);
                    if at + 1 + n < lines.len() {
                        lemma_out_lines_shape(lines, at + 1 + n, paused, newline);
                        assert(again.skip(at + 1 + n)[0] == again[at + 1 + n]);
                    }
                    lemma_block_again(lines, again, at + 1, delims, mode);
                }
            },
        }
    }
}

/// The step of `lemma_run_again`: where the pass goes on `step` lines
/// further, the second pass puts out from there on what the first did.
proof fn lemma_again_step(
    lines: Seq<Seq<char>>,
    again: Seq<Seq<char>>,
    at: int,
    step: int,
    paused: bool,
    then_paused: bool,
    newline: Seq<char>,
)
    requires
        0 <= at < lines.len(),
        1 <= step,
        at + step <= lines.len(),
        again.len() == lines.len(),
        run(lines, at + step, then_paused, newline) is Ok,
        out_lines(lines, at, paused).len() == lines.len() - at,
        again.skip(at) == out_lines(lines, at, paused),
        out_lines(lines, at, paused).skip(step) == out_lines(lines, at + step, then_paused),
    ensures
        again.skip(at + step) == out_lines(lines, at + step, then_paused),
        run(again, at + step, then_paused, newline) == run(
            lines,
            at + step,
            then_paused,
            newline,
        ),
    decreases lines.len() - at, 0int,
{
    assert(again.skip(at + step) =~= again.skip(at).skip(step));
    lemma_run_again(lines, again, at + step, then_paused, newline);
}

/// Spaces after a text add no non-blanks.
pub proof fn lemma_unblank_widens(cell: Seq<char>, wide: Seq<char>)
    requires
        widens(cell, wide),
    ensures
        unblank(wide) == unblank(cell),
    decreases wide.len() - cell.len(),
{
    if wide.len() == cell.len() {
        assert(wide =~= cell);
    } else {
        let init = wide.drop_last();
        assert(init.take(cell.len() as int) =~= wide.take(cell.len() as int));
        lemma_unblank_widens(cell, init);
    }
}

/// Parts with the same non-blanks make texts with the same non-blanks.
pub proof fn lemma_unblank_concat(a: Seq<Seq<char>>, b: Seq<Seq<char>>)
    requires
        a.len() == b.len(),
        forall|j: int| 0 <= j < a.len() ==> unblank(#[trigger] a[j]) == unblank(b[j]),
    ensures
        unblank(concat(a)) == unblank(concat(b)),
    decreases a.len(),
{
    if a.len() > 0 {
        assert forall|j: int| 0 <= j < a.drop_last().len() implies unblank(
            #[trigger] a.drop_last()[j],
        ) == unblank(b.drop_last()[j]) by {
            assert(unblank(a[j]) == unblank(b[j]));
        }
        lemma_unblank_concat(a.drop_last(), b.drop_last());
        lemma_unblank_add(concat(a.drop_last()), a.last());
        lemma_unblank_add(concat(b.drop_last()), b.last());
        assert(unblank(a[a.len() - 1]) == unblank(b[a.len() - 1]));
    }
}

} // verus!
