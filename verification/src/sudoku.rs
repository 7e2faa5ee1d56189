//! The grid model: an N x N board of digits, where 0 marks a blank cell in a
//! base puzzle and 1..=N are the Sudoku digits.

use vstd::prelude::*;

pub mod inner;

verus! {

use crate::errors::{ConfigError, ParseError};
use crate::sudoku::inner::Scorer;
use vstd::std_specs::cmp::PartialEqSpec;

/// One line of a board: N digits.
#[derive(Debug)]
pub struct Row(pub Vec<u8>);

impl View for Row {
    type V = Seq<u8>;

    open spec fn view(&self) -> Seq<u8> {
        self.0@
    }
}

impl PartialEq for Row {
    /// Structural equality: same digits in the same order.
    fn eq(&self, other: &Row) -> (r: bool) {
        let r = self.0 == other.0;
        proof {
            if r {
                assert(self.0@ =~= other.0@);
            }
        }
        r
    }
}

impl vstd::std_specs::cmp::PartialEqSpecImpl for Row {
    open spec fn obeys_eq_spec() -> bool {
        true
    }

    open spec fn eq_spec(&self, other: &Row) -> bool {
        self.0@ == other.0@
    }
}

impl Clone for Row {
    /// A clone holds the same digits.
    fn clone(&self) -> (r: Self)
        ensures
            r@ == self@,
    {
        let cells = self.0.clone();
        proof {
            assert(cells@ =~= self.0@);
        }
        Row(cells)
    }
}

/// An N x N grid of digits.
#[derive(Debug)]
pub struct Board(pub Vec<Row>);

impl View for Board {
    type V = Seq<Seq<u8>>;

    open spec fn view(&self) -> Seq<Seq<u8>> {
        self.0@.map_values(|r: Row| r@)
    }
}

impl PartialEq for Board {
    /// Structural equality: cell by cell.
    fn eq(&self, other: &Board) -> (r: bool) {
        let r = self.0 == other.0;
        proof {
            if r {
                assert(self@ =~= other@);
            } else {
                if self.0@.len() != other.0@.len() {
                    assert(self@.len() != other@.len());
                } else {
                    let i = choose|i: int|
                        0 <= i < self.0@.len() && !(#[trigger] self.0@[i].eq_spec(&other.0@[i]));
                    assert(self@[i] != other@[i]);
                }
            }
        }
        r
    }
}

impl vstd::std_specs::cmp::PartialEqSpecImpl for Board {
    open spec fn obeys_eq_spec() -> bool {
        true
    }

    open spec fn eq_spec(&self, other: &Board) -> bool {
        self@ == other@
    }
}

impl Clone for Board {
    /// A clone holds the same grid of digits.
    fn clone(&self) -> (r: Self)
        ensures
            r@ == self@,
    {
        let rows = self.0.clone();
        let r = Board(rows);
        proof {
            assert(r@ =~= self@);
        }
        r
    }
}

/// A board is square: every row is exactly as long as the list of rows.
pub open spec fn is_square(g: Seq<Seq<u8>>) -> bool {
    forall|i: int| 0 <= i < g.len() ==> (#[trigger] g[i]).len() == g.len()
}

/// Every cell of the grid is at most `bound`.
pub open spec fn cells_at_most(g: Seq<Seq<u8>>, bound: u8) -> bool {
    forall|i: int, j: int|
        0 <= i < g.len() && 0 <= j < g[i].len() ==> #[trigger] g[i][j] <= bound
}

/// Every cell of the grid is a digit in 1..=n: a full candidate grid, with no
/// blanks.
pub open spec fn cells_in_digit_range(g: Seq<Seq<u8>>, n: nat) -> bool {
    forall|i: int, j: int|
        0 <= i < g.len() && 0 <= j < g[i].len() ==> 1 <= #[trigger] g[i][j] <= n
}

/// The cell-by-cell merge of a candidate into a base puzzle: blank (zero) base
/// cells take the candidate's digit, fixed base cells win.
pub open spec fn overlay_spec(base: Seq<Seq<u8>>, cand: Seq<Seq<u8>>) -> Seq<Seq<u8>> {
    Seq::new(
        base.len(),
        |i: int|
            Seq::new(
                base[i].len(),
                |j: int|
                    if base[i][j] == 0 {
                        cand[i][j]
                    } else {
                        base[i][j]
                    },
            ),
    )
}

/// The grid with rows and columns swapped.
pub open spec fn transpose_spec(g: Seq<Seq<u8>>) -> Seq<Seq<u8>> {
    Seq::new(g.len(), |j: int| Seq::new(g.len(), |i: int| g[i][j]))
}

/// The number of duplicates in a group of digits: how many elements have
/// already occurred, scanning left to right.
pub open spec fn dup_count(s: Seq<u8>) -> nat
    decreases s.len(),
{
    if s.len() == 0 {
        0
    } else {
        dup_count(s.drop_last()) + if s.drop_last().contains(s.last()) {
            1nat
        } else {
            0nat
        }
    }
}

/// Appending a digit to a group adds one duplicate exactly when the digit
/// already occurs in the group.
pub proof fn lemma_dup_count_push(s: Seq<u8>, x: u8)
    ensures
        dup_count(s.push(x)) == dup_count(s) + if s.contains(x) {
            1nat
        } else {
            0nat
        },
{
    assert(s.push(x).drop_last() =~= s);
    assert(s.push(x).last() == x);
}

/// A group can hold no more duplicates than it holds digits.
pub proof fn lemma_dup_count_le_len(s: Seq<u8>)
    ensures
        dup_count(s) <= s.len(),
    decreases s.len(),
{
    if s.len() > 0 {
        lemma_dup_count_le_len(s.drop_last());
    }
}

/// The sum of the duplicate counts of all rows of a grid.
pub open spec fn total_dup_count(rows: Seq<Seq<u8>>) -> nat
    decreases rows.len(),
{
    if rows.len() == 0 {
        0
    } else {
        total_dup_count(rows.drop_last()) + dup_count(rows.last())
    }
}

/// Appending a row adds exactly that row's duplicate count to the total.
pub proof fn lemma_total_dup_count_push(rows: Seq<Seq<u8>>, row: Seq<u8>)
    ensures
        total_dup_count(rows.push(row)) == total_dup_count(rows) + dup_count(row),
{
    assert(rows.push(row).drop_last() =~= rows);
    assert(rows.push(row).last() == row);
}

/// The total duplicate count of a grid whose rows each hold at most `m`
/// digits is at most `rows * m`.
pub proof fn lemma_total_dup_count_bound(rows: Seq<Seq<u8>>, m: nat)
    requires
        forall|i: int| 0 <= i < rows.len() ==> (#[trigger] rows[i]).len() <= m,
    ensures
        total_dup_count(rows) <= rows.len() * m,
    decreases rows.len(),
{
    if rows.len() > 0 {
        lemma_total_dup_count_bound(rows.drop_last(), m);
        lemma_dup_count_le_len(rows.last());
        assert(rows.len() * m == (rows.len() - 1) * m + m) by (nonlinear_arith);
    }
}

/// The side lengths for which box scoring is defined: perfect squares whose
/// root is 2..=5.
pub open spec fn supported_size(n: int) -> bool {
    n == 4 || n == 9 || n == 16 || n == 25
}

/// The side length of one box: the square root of the board size, for the
/// supported sizes.
pub open spec fn box_len_spec(n: int) -> int {
    if n == 4 {
        2
    } else if n == 9 {
        3
    } else if n == 16 {
        4
    } else if n == 25 {
        5
    } else {
        0
    }
}

/// The digits of the box at box-coordinates (p, q) of a grid with boxes of
/// side b, read row by row.
pub open spec fn box_at(g: Seq<Seq<u8>>, b: int, p: int, q: int) -> Seq<u8> {
    Seq::new((b * b) as nat, |k: int| g[p * b + k / b][q * b + k % b])
}

/// The sum of the duplicate counts of the first m boxes, in row-major box
/// order.
pub open spec fn boxes_dup_upto(g: Seq<Seq<u8>>, b: int, m: int) -> nat
    decreases m,
{
    if m <= 0 {
        0
    } else {
        boxes_dup_upto(g, b, m - 1) + dup_count(box_at(g, b, (m - 1) / b, (m - 1) % b))
    }
}

/// The sum of the duplicate counts of all boxes of a grid.
pub open spec fn box_dup_count(g: Seq<Seq<u8>>) -> nat {
    let b = box_len_spec(g.len() as int);
    boxes_dup_upto(g, b, b * b)
}

/// The legality score of a grid: duplicates in rows, plus duplicates in
/// columns (rows of the transpose), plus duplicates in boxes. Zero means no
/// rule of Sudoku is violated.
pub open spec fn fitness_spec(g: Seq<Seq<u8>>) -> nat {
    total_dup_count(g) + total_dup_count(transpose_spec(g)) + box_dup_count(g)
}

/// One column of a grid, read top to bottom.
pub open spec fn column_of(g: Seq<Seq<u8>>, j: int) -> Seq<u8> {
    Seq::new(g.len(), |i: int| g[i][j])
}

/// A group is a permutation of the digits 1..=n: it holds exactly n digits
/// and every digit of 1..=n occurs in it.
pub open spec fn is_permutation_of_digits(s: Seq<u8>, n: nat) -> bool {
    s.len() == n && forall|d: u8| 1 <= d <= n ==> s.contains(d)
}

/// A grid is a valid Sudoku solution: every row, every column and every box
/// is a permutation of the digits 1..=N.
pub open spec fn is_solved(g: Seq<Seq<u8>>) -> bool {
    let n = g.len();
    let b = box_len_spec(n as int);
    &&& forall|i: int| 0 <= i < n ==> is_permutation_of_digits(#[trigger] g[i], n)
    &&& forall|j: int| 0 <= j < n ==> is_permutation_of_digits(#[trigger] column_of(g, j), n)
    &&& forall|p: int, q: int|
        0 <= p < b && 0 <= q < b ==> is_permutation_of_digits(#[trigger] box_at(g, b, p, q), n)
}

/// A group has no duplicates exactly when its duplicate count is zero.
pub proof fn lemma_dup_count_zero_iff_distinct(s: Seq<u8>)
    ensures
        dup_count(s) == 0 <==> s.no_duplicates(),
    decreases s.len(),
{
    if s.len() > 0 {
        let dl = s.drop_last();
        lemma_dup_count_zero_iff_distinct(dl);
        if dup_count(s) == 0 {
            assert(s.no_duplicates()) by {
                assert(forall|i: int, j: int|
                    0 <= i < s.len() && 0 <= j < s.len() && i != j && i < s.len() - 1 && j < s.len()
                        - 1 ==> s[i] != s[j]) by {
                    assert(forall|i: int| 0 <= i < dl.len() ==> dl[i] == s[i]);
                }
                assert(forall|i: int| 0 <= i < s.len() - 1 ==> #[trigger] s[i] != s[s.len() - 1]) by {
                    assert(forall|i: int| 0 <= i < dl.len() ==> dl[i] == s[i]);
                    assert(!dl.contains(s.last()));
                }
            }
        }
        if s.no_duplicates() {
            assert(dl.no_duplicates()) by {
                assert(forall|i: int| 0 <= i < dl.len() ==> dl[i] == s[i]);
            }
            assert(!dl.contains(s.last())) by {
                if dl.contains(s.last()) {
                    let i = choose|i: int| 0 <= i < dl.len() && dl[i] == s.last();
                    assert(s[i] == s[s.len() - 1]);
                }
            }
        }
    }
}

/// Pigeonhole, one way: n distinct digits that all lie in 1..=n must cover
/// every digit of 1..=n.
proof fn lemma_distinct_range_is_perm(s: Seq<u8>, n: nat)
    requires
        s.len() == n,
        n <= 255,
        s.no_duplicates(),
        forall|i: int| 0 <= i < s.len() ==> 1 <= #[trigger] s[i] <= n,
    ensures
        is_permutation_of_digits(s, n),
{
    broadcast use vstd::seq_lib::seq_to_set_is_finite;

    let t = s.map_values(|x: u8| x as int);
    let range = vstd::set_lib::set_int_range(1, n as int + 1);
    assert(t.no_duplicates()) by {
        assert(forall|i: int, j: int|
            0 <= i < t.len() && 0 <= j < t.len() && i != j ==> #[trigger] t[i] != #[trigger] t[j])
            by {
            assert(forall|i: int| 0 <= i < s.len() ==> t[i] == s[i] as int);
        }
    }
    t.unique_seq_to_set();
    vstd::set_lib::lemma_int_range(1, n as int + 1);
    assert(t.to_set().subset_of(range)) by {
        assert(forall|x: int| t.to_set().contains(x) ==> #[trigger] range.contains(x)) by {
            assert(forall|x: int| t.contains(x) ==> 1 <= x <= n) by {
                assert(forall|i: int| 0 <= i < t.len() ==> 1 <= #[trigger] t[i] <= n);
            }
        }
    }
    vstd::set_lib::lemma_subset_equality(t.to_set(), range);
    assert(forall|d: u8| 1 <= d <= n ==> s.contains(d)) by {
        assert forall|d: u8| 1 <= d <= n implies s.contains(d) by {
            assert(range.contains(d as int));
            assert(t.contains(d as int));
            let i = choose|i: int| 0 <= i < t.len() && t[i] == d as int;
            assert(s[i] == d);
        }
    }
}

/// Pigeonhole, the other way: n digits among which every digit of 1..=n
/// occurs are distinct and all lie in 1..=n.
proof fn lemma_perm_is_distinct_range(s: Seq<u8>, n: nat)
    requires
        n <= 255,
        is_permutation_of_digits(s, n),
    ensures
        s.no_duplicates(),
        forall|i: int| 0 <= i < s.len() ==> 1 <= #[trigger] s[i] <= n,
{
    broadcast use vstd::seq_lib::seq_to_set_is_finite;

    let t = s.map_values(|x: u8| x as int);
    let range = vstd::set_lib::set_int_range(1, n as int + 1);
    vstd::set_lib::lemma_int_range(1, n as int + 1);
    assert(range.subset_of(t.to_set())) by {
        assert forall|x: int| range.contains(x) implies t.to_set().contains(x) by {
            let d: u8 = x as u8;
            assert(s.contains(d));
            let i = choose|i: int| 0 <= i < s.len() && s[i] == d;
            assert(t[i] == x);
        }
    }
    t.lemma_cardinality_of_set();
    vstd::set_lib::lemma_len_subset(range, t.to_set());
    vstd::set_lib::lemma_subset_equality(range, t.to_set());
    t.lemma_no_dup_set_cardinality();
    assert(s.no_duplicates()) by {
        assert(forall|i: int, j: int|
            0 <= i < s.len() && 0 <= j < s.len() && i != j ==> #[trigger] s[i] != #[trigger] s[j])
            by {
            assert(forall|i: int| 0 <= i < s.len() ==> t[i] == s[i] as int);
        }
    }
    assert forall|i: int| 0 <= i < s.len() implies 1 <= #[trigger] s[i] <= n by {
        assert(t.contains(t[i]));
        assert(range.contains(s[i] as int));
    }
}

/// A grid's row total is zero exactly when every row is duplicate-free.
proof fn lemma_total_dup_count_zero_iff(rows: Seq<Seq<u8>>)
    ensures
        total_dup_count(rows) == 0 <==> forall|i: int|
            0 <= i < rows.len() ==> dup_count(#[trigger] rows[i]) == 0,
    decreases rows.len(),
{
    if rows.len() > 0 {
        let dl = rows.drop_last();
        lemma_total_dup_count_zero_iff(dl);
        assert(forall|i: int| 0 <= i < dl.len() ==> dl[i] == rows[i]);
        assert(rows.last() == rows[rows.len() - 1]);
    }
}

/// The sum over the first m boxes is zero exactly when each of those boxes is
/// duplicate-free.
proof fn lemma_boxes_dup_upto_zero_iff(g: Seq<Seq<u8>>, b: int, m: int)
    ensures
        boxes_dup_upto(g, b, m) == 0 <==> forall|j: int|
            0 <= j < m ==> dup_count(#[trigger] box_at(g, b, j / b, j % b)) == 0,
    decreases m,
{
    if m > 0 {
        lemma_boxes_dup_upto_zero_iff(g, b, m - 1);
    }
}

/// The GOLD property of the scoring model: a full grid (every cell a digit in
/// 1..=N) has fitness zero exactly when every row, every column and every box
/// is a permutation of the digits 1..=N.
pub proof fn lemma_fitness_zero_iff_solved(g: Seq<Seq<u8>>)
    requires
        is_square(g),
        supported_size(g.len() as int),
        cells_in_digit_range(g, g.len()),
    ensures
        fitness_spec(g) == 0 <==> is_solved(g),
{
    let n = g.len();
    let b = box_len_spec(n as int);
    let t = transpose_spec(g);
    assert(b * b == n && 0 < b && n <= 25);
    lemma_total_dup_count_zero_iff(g);
    lemma_total_dup_count_zero_iff(t);
    lemma_boxes_dup_upto_zero_iff(g, b, b * b);
    assert(forall|j: int| 0 <= j < n ==> #[trigger] t[j] == column_of(g, j)) by {
        assert(forall|j: int| 0 <= j < n ==> #[trigger] t[j] =~= column_of(g, j));
    }
    assert forall|p: int, q: int, k: int| 0 <= p < b && 0 <= q < b && 0 <= k < n implies 0 <= p * b
        + k / b < n && 0 <= q * b + k % b < n && #[trigger] box_at(g, b, p, q)[k] == g[p * b + k
        / b][q * b + k % b] by {
        assert(0 <= k / b < b && 0 <= k % b < b) by (nonlinear_arith)
            requires
                0 <= k,
                k < n,
                0 < b,
                b * b == n,
        ;
        assert(0 <= p * b + k / b < n && 0 <= q * b + k % b < n) by (nonlinear_arith)
            requires
                0 <= k / b < b,
                0 <= k % b < b,
                0 <= p < b,
                0 <= q < b,
                b * b == n,
        ;
    }
    if fitness_spec(g) == 0 {
        assert forall|i: int| 0 <= i < n implies is_permutation_of_digits(#[trigger] g[i], n) by {
            lemma_dup_count_zero_iff_distinct(g[i]);
            lemma_distinct_range_is_perm(g[i], n);
        }
        assert forall|j: int| 0 <= j < n implies is_permutation_of_digits(
            #[trigger] column_of(g, j),
            n,
        ) by {
            lemma_dup_count_zero_iff_distinct(t[j]);
            assert(forall|i: int| 0 <= i < n ==> 1 <= #[trigger] column_of(g, j)[i] <= n);
            lemma_distinct_range_is_perm(column_of(g, j), n);
        }
        assert forall|p: int, q: int| 0 <= p < b && 0 <= q < b implies is_permutation_of_digits(
            #[trigger] box_at(g, b, p, q),
            n,
        ) by {
            let m = p * b + q;
            assert(0 <= m < b * b && m / b == p && m % b == q) by (nonlinear_arith)
                requires
                    0 <= p < b,
                    0 <= q < b,
                    m == p * b + q,
            ;
            assert(dup_count(box_at(g, b, p, q)) == 0);
            lemma_dup_count_zero_iff_distinct(box_at(g, b, p, q));
            assert(forall|k: int| 0 <= k < n ==> 1 <= #[trigger] box_at(g, b, p, q)[k] <= n);
            lemma_distinct_range_is_perm(box_at(g, b, p, q), n);
        }
    }
    if is_solved(g) {
        assert forall|i: int| 0 <= i < n implies dup_count(#[trigger] g[i]) == 0 by {
            lemma_perm_is_distinct_range(g[i], n);
            lemma_dup_count_zero_iff_distinct(g[i]);
        }
        assert forall|j: int| 0 <= j < n implies dup_count(#[trigger] t[j]) == 0 by {
            lemma_perm_is_distinct_range(column_of(g, j), n);
            lemma_dup_count_zero_iff_distinct(column_of(g, j));
        }
        assert forall|m: int| 0 <= m < b * b implies dup_count(
            #[trigger] box_at(g, b, m / b, m % b),
        ) == 0 by {
            assert(0 <= m / b < b && 0 <= m % b < b) by (nonlinear_arith)
                requires
                    0 <= m,
                    m < b * b,
                    0 < b,
            ;
            lemma_perm_is_distinct_range(box_at(g, b, m / b, m % b), n);
            lemma_dup_count_zero_iff_distinct(box_at(g, b, m / b, m % b));
        }
        assert(total_dup_count(g) == 0);
        assert(total_dup_count(t) == 0);
        assert(boxes_dup_upto(g, b, b * b) == 0);
    }
}

/// The first m boxes hold at most m * (b * b) duplicates in all.
proof fn lemma_boxes_dup_upto_bound(g: Seq<Seq<u8>>, b: int, m: int)
    requires
        b >= 0,
        m >= 0,
    ensures
        boxes_dup_upto(g, b, m) <= m * (b * b),
    decreases m,
{
    if m > 0 {
        lemma_boxes_dup_upto_bound(g, b, m - 1);
        lemma_dup_count_le_len(box_at(g, b, (m - 1) / b, (m - 1) % b));
        assert(m * (b * b) == (m - 1) * (b * b) + b * b) by (nonlinear_arith);
    }
}

/// A byte that spells a decimal digit.
pub open spec fn is_ascii_digit(c: u8) -> bool {
    48 <= c <= 57
}

/// One line's bytes with a carriage return at its end stripped.
pub open spec fn strip_cr(line: Seq<u8>) -> Seq<u8> {
    if line.len() > 0 && line.last() == 13 {
        line.drop_last()
    } else {
        line
    }
}

/// The lines of `text` from byte `pos` on, with `cur` the part of the current
/// line already read: lines are split at each line feed, a carriage return
/// before a line feed is dropped, and a final line needs no line feed.
pub open spec fn split_rest(text: Seq<u8>, pos: int, cur: Seq<u8>) -> Seq<Seq<u8>>
    decreases text.len() - pos,
{
    if pos < 0 || pos >= text.len() {
        if cur.len() > 0 {
            seq![cur]
        } else {
            Seq::empty()
        }
    } else if text[pos] == 10 {
        seq![strip_cr(cur)] + split_rest(text, pos + 1, Seq::empty())
    } else {
        split_rest(text, pos + 1, cur.push(text[pos]))
    }
}

/// The lines of a puzzle text.
pub open spec fn split_lines(text: Seq<u8>) -> Seq<Seq<u8>> {
    split_rest(text, 0, Seq::empty())
}

/// The first problem in one line that should hold exactly n digits, scanning
/// left to right: a non-digit character among the first n positions, or,
/// failing that, a wrong number of characters.
pub open spec fn line_error(line: Seq<u8>, n: int) -> Option<ParseError> {
    if exists|j: int| 0 <= j < line.len() && j < n && !is_ascii_digit(#[trigger] line[j]) {
        Some(ParseError::InvalidChar)
    } else if line.len() != n {
        Some(ParseError::InvalidColumns)
    } else {
        None
    }
}

/// The first problem in the lines of a puzzle text, scanning rows `i` to n:
/// a missing row, the row's own first problem, or a row too many.
pub open spec fn rows_error(ls: Seq<Seq<u8>>, n: int, i: int) -> Option<ParseError>
    decreases n - i,
{
    if i >= n {
        if ls.len() > n {
            Some(ParseError::InvalidRows)
        } else {
            None
        }
    } else if i >= ls.len() {
        Some(ParseError::InvalidRows)
    } else if line_error(ls[i], n) is Some {
        line_error(ls[i], n)
    } else {
        rows_error(ls, n, i + 1)
    }
}

/// What parsing a puzzle text as an n x n grid reports: the first problem, or
/// nothing when the text is well-formed.
pub open spec fn parse_outcome(text: Seq<u8>, n: int) -> Option<ParseError> {
    rows_error(split_lines(text), n, 0)
}

/// The views of a list of byte lines.
pub open spec fn line_views(v: Seq<Vec<u8>>) -> Seq<Seq<u8>> {
    v.map_values(|x: Vec<u8>| x@)
}

/// The digits a line of digit characters spells.
pub open spec fn digits_of(line: Seq<u8>) -> Seq<u8> {
    line.map_values(|c: u8| (c - 48) as u8)
}

/// The grid a well-formed puzzle text spells.
pub open spec fn parsed_grid(text: Seq<u8>, n: int) -> Seq<Seq<u8>> {
    Seq::new(n as nat, |i: int| digits_of(split_lines(text)[i]))
}

/// Checks the board side length against the sizes box scoring supports, and
/// returns the box side length. Run configuration must fail fast on an
/// unsupported size instead of reaching the scorer with it.
pub fn validate_size(n: usize) -> (r: Result<usize, ConfigError>)
    ensures
        match r {
            Ok(b) => supported_size(n as int) && b == box_len_spec(n as int),
            Err(e) => !supported_size(n as int) && e == ConfigError::UnsupportedGridSize,
        },
{
    if n == 4 {
        Ok(2)
    } else if n == 9 {
        Ok(3)
    } else if n == 16 {
        Ok(4)
    } else if n == 25 {
        Ok(5)
    } else {
        Err(ConfigError::UnsupportedGridSize)
    }
}

/// Runs a fresh scorer over one group of digits and returns its duplicate
/// count. Feeding k distinct digits scores zero; every repeat of a digit
/// already seen adds exactly one.
pub fn score_group(digits: &[u8]) -> (r: u32)
    requires
        digits@.len() <= 0xFFFF,
        forall|k: int| 0 <= k < digits@.len() ==> #[trigger] digits@[k] <= 63,
    ensures
        r == dup_count(digits@),
{
    let mut scorer = Scorer::default();
    let count = digits.len();
    let mut j: usize = 0;
    while j < count
        invariant
            count == digits@.len(),
            count <= 0xFFFF,
            forall|k: int| 0 <= k < digits@.len() ==> #[trigger] digits@[k] <= 63,
            0 <= j <= count,
            scorer.dup_score() == dup_count(digits@.take(j as int)),
            forall|e: u8| e < 64 ==> (scorer.has_seen(e) <==> digits@.take(j as int).contains(e)),
        decreases count - j,
    {
        let digit = digits[j];
        proof {
            broadcast use vstd::seq_lib::lemma_seq_contains_after_push;

            lemma_dup_count_le_len(digits@.take(j as int));
            lemma_dup_count_push(digits@.take(j as int), digit);
            assert(digits@.take(j as int).push(digit) =~= digits@.take(j as int + 1));
        }
        scorer.check(digit);
        j = j + 1;
    }
    proof {
        assert(digits@.take(count as int) =~= digits@);
    }
    scorer.score()
}

impl Board {
    /// Wraps the given rows as a board.
    pub fn new(rows: Vec<Row>) -> (r: Board)
        ensures
            r@ == rows@.map_values(|row: Row| row@),
    {
        Board(rows)
    }

    /// The side length N of the board.
    pub fn size(&self) -> (r: usize)
        ensures
            r == self@.len(),
    {
        self.0.len()
    }

    /// Parses a puzzle text as an n x n grid: exactly n lines, each of
    /// exactly n digit characters, where 0 marks a blank cell. Returns the
    /// first problem found, scanning row by row and left to right.
    pub fn parse(text: &[u8], n: usize) -> (r: Result<Board, ParseError>)
        ensures
            match r {
                Ok(b) => parse_outcome(text@, n as int) is None && b@ == parsed_grid(
                    text@,
                    n as int,
                ) && b@.len() == n && is_square(b@) && cells_at_most(b@, 9),
                Err(e) => parse_outcome(text@, n as int) == Some(e),
            },
    {
        let mut lines: Vec<Vec<u8>> = Vec::new();
        let mut cur: Vec<u8> = Vec::new();
        let mut pos: usize = 0;
        while pos < text.len()
            invariant
                pos <= text@.len(),
                split_lines(text@) == line_views(lines@) + split_rest(text@, pos as int, cur@),
            decreases text@.len() - pos,
        {
            let c = text[pos];
            if c == 10 {
                let ghost done = lines@;
                let ghost prev = cur@;
                if cur.len() > 0 && cur[cur.len() - 1] == 13 {
                    cur.pop();
                }
                proof {
                    assert(cur@ == strip_cr(prev));
                }
                lines.push(cur);
                cur = Vec::new();
                proof {
                    assert(line_views(lines@) =~= line_views(done).push(strip_cr(prev)));
                    assert(line_views(done) + split_rest(text@, pos as int, prev) =~= line_views(
                        lines@,
                    ) + split_rest(text@, pos as int + 1, cur@));
                }
            } else {
                cur.push(c);
            }
            pos = pos + 1;
        }
        if cur.len() > 0 {
            let ghost done = lines@;
            let ghost prev = cur@;
            lines.push(cur);
            proof {
                assert(line_views(lines@) =~= line_views(done).push(prev));
            }
        }
        let ghost ls = split_lines(text@);
        proof {
            assert(ls =~= line_views(lines@));
        }
        let mut rows: Vec<Row> = Vec::new();
        let mut i: usize = 0;
        while i < n
            invariant
                0 <= i <= n,
                ls == split_lines(text@),
                ls == line_views(lines@),
                rows_error(ls, n as int, 0) == rows_error(ls, n as int, i as int),
                rows@.len() == i,
                forall|k: int|
                    0 <= k < i ==> #[trigger] rows@[k]@ == digits_of(ls[k]) && rows@[k]@.len() == n
                        && (forall|j: int| 0 <= j < n ==> #[trigger] rows@[k]@[j] <= 9),
            decreases n - i,
        {
            if i >= lines.len() {
                return Err(ParseError::InvalidRows);
            }
            let line = &lines[i];
            proof {
                assert(line@ == ls[i as int]);
            }
            let mut row: Vec<u8> = Vec::new();
            let mut j: usize = 0;
            while j < line.len()
                invariant
                    0 <= i < n,
                    i < lines@.len(),
                    ls == split_lines(text@),
                    ls == line_views(lines@),
                    line@ == ls[i as int],
                    rows_error(ls, n as int, 0) == rows_error(ls, n as int, i as int),
                    0 <= j <= line@.len(),
                    j <= n,
                    forall|k: int| 0 <= k < j ==> is_ascii_digit(#[trigger] line@[k]),
                    row@ == digits_of(line@.take(j as int)),
                    forall|k: int| 0 <= k < j ==> #[trigger] row@[k] <= 9,
                decreases line@.len() - j,
            {
                if j >= n {
                    proof {
                        assert(line_error(ls[i as int], n as int) == Some(
                            ParseError::InvalidColumns,
                        ));
                    }
                    return Err(ParseError::InvalidColumns);
                }
                let c = line[j];
                if c < 48 || c > 57 {
                    proof {
                        assert(!is_ascii_digit(line@[j as int]));
                        assert(line_error(ls[i as int], n as int) == Some(ParseError::InvalidChar));
                    }
                    return Err(ParseError::InvalidChar);
                }
                row.push(c - 48);
                proof {
                    assert(row@ =~= digits_of(line@.take(j as int + 1)));
                }
                j = j + 1;
            }
            if j != n {
                proof {
                    assert(line_error(ls[i as int], n as int) == Some(ParseError::InvalidColumns));
                }
                return Err(ParseError::InvalidColumns);
            }
            proof {
                assert(line_error(ls[i as int], n as int) is None);
                assert(row@ =~= digits_of(ls[i as int]));
            }
            rows.push(Row(row));
            i = i + 1;
        }
        if lines.len() > n {
            return Err(ParseError::InvalidRows);
        }
        let b = Board(rows);
        proof {
            assert(b@ =~= parsed_grid(text@, n as int));
        }
        Ok(b)
    }

    /// Overlays the given candidate on top of `self`: blank (zero) cells of
    /// `self` take the candidate's digit, fixed cells of `self` win.
    pub fn overlay(&self, overlay: &Board) -> (r: Board)
        requires
            is_square(self@),
            is_square(overlay@),
            self@.len() == overlay@.len(),
        ensures
            r@ == overlay_spec(self@, overlay@),
            is_square(r@),
    {
        let n = self.0.len();
        let mut rows: Vec<Row> = Vec::new();
        for i in 0..n
            invariant
                n == self@.len(),
                n == overlay@.len(),
                is_square(self@),
                is_square(overlay@),
                rows@.len() == i,
                forall|k: int| 0 <= k < i ==> #[trigger] rows@[k]@ == overlay_spec(self@, overlay@)[k],
        {
            let mut cells: Vec<u8> = Vec::new();
            for j in 0..n
                invariant
                    n == self@.len(),
                    n == overlay@.len(),
                    is_square(self@),
                    is_square(overlay@),
                    0 <= i < n,
                    cells@.len() == j,
                    forall|k: int|
                        0 <= k < j ==> cells@[k] == overlay_spec(self@, overlay@)[i as int][k],
            {
                proof {
                    assert(self@[i as int] == self.0@[i as int]@);
                    assert(overlay@[i as int] == overlay.0@[i as int]@);
                }
                let base_digit = self.0[i].0[j];
                let digit = if base_digit == 0 {
                    overlay.0[i].0[j]
                } else {
                    base_digit
                };
                cells.push(digit);
            }
            rows.push(Row(cells));
        }
        let result = Board(rows);
        proof {
            assert(result@ =~= overlay_spec(self@, overlay@)) by {
                assert(forall|k: int|
                    0 <= k < n ==> result@[k] =~= overlay_spec(self@, overlay@)[k]);
            }
        }
        result
    }

    /// Counts the duplicate digits of every row, and sums the counts.
    pub fn count_row_duplicates(&self) -> (r: u32)
        requires
            is_square(self@),
            self@.len() <= 0xFFFF,
            cells_at_most(self@, 63),
        ensures
            r == total_dup_count(self@),
    {
        let n = self.0.len();
        let mut total: u32 = 0;
        for i in 0..n
            invariant
                n == self@.len(),
                n <= 0xFFFF,
                is_square(self@),
                cells_at_most(self@, 63),
                total == total_dup_count(self@.take(i as int)),
                total <= i * n,
        {
            proof {
                assert(self@[i as int] == self.0@[i as int]@);
            }
            let s = score_group(self.0[i].0.as_slice());
            proof {
                let row = self@[i as int];
                lemma_total_dup_count_push(self@.take(i as int), row);
                assert(self@.take(i as int).push(row) =~= self@.take(i as int + 1));
                lemma_dup_count_le_len(row);
                lemma_total_dup_count_bound(self@.take(i as int + 1), n as nat);
                assert((i + 1) * n <= 0xFFFF * 0xFFFF) by (nonlinear_arith)
                    requires
                        0 <= i < n <= 0xFFFF,
                ;
            }
            total = total + s;
        }
        proof {
            assert(self@.take(n as int) =~= self@);
        }
        total
    }

    /// Counts the duplicate digits of every sqrt(N) x sqrt(N) box, and sums
    /// the counts. Box scoring is defined only for the supported board sizes
    /// (4, 9, 16 and 25).
    pub fn count_box_duplicates(&self) -> (r: u32)
        requires
            is_square(self@),
            supported_size(self@.len() as int),
            cells_at_most(self@, 63),
        ensures
            r == box_dup_count(self@),
    {
        let n = self.0.len();
        let b: usize = if n == 4 {
            2
        } else if n == 9 {
            3
        } else if n == 16 {
            4
        } else {
            5
        };
        let mut total: u32 = 0;
        let mut p: usize = 0;
        while p < b
            invariant
                n == self@.len(),
                is_square(self@),
                supported_size(n as int),
                cells_at_most(self@, 63),
                b == box_len_spec(n as int),
                b * b == n,
                0 <= p <= b,
                total == boxes_dup_upto(self@, b as int, p as int * b as int),
                total <= n * n,
            decreases b - p,
        {
            let mut q: usize = 0;
            while q < b
                invariant
                    n == self@.len(),
                    is_square(self@),
                    supported_size(n as int),
                    cells_at_most(self@, 63),
                    b == box_len_spec(n as int),
                    b * b == n,
                    0 <= p < b,
                    0 <= q <= b,
                    total == boxes_dup_upto(self@, b as int, p as int * b as int + q as int),
                    total <= n * n,
                decreases b - q,
            {
                let ghost bx = box_at(self@, b as int, p as int, q as int);
                let mut scorer = Scorer::default();
                let mut k: usize = 0;
                while k < n
                    invariant
                        n == self@.len(),
                        is_square(self@),
                        cells_at_most(self@, 63),
                        b * b == n,
                        n <= 25,
                        0 <= p < b,
                        0 <= q < b,
                        0 <= k <= n,
                        bx == box_at(self@, b as int, p as int, q as int),
                        scorer.dup_score() == dup_count(bx.take(k as int)),
                        forall|e: u8| e < 64 ==> (scorer.has_seen(e) <==> bx.take(k as int).contains(e)),
                    decreases n - k,
                {
                    proof {
                        let ki = k as int;
                        let bi = b as int;
                        let pi = p as int;
                        let qi = q as int;
                        let ni = n as int;
                        assert(ki / bi < bi && pi * bi + ki / bi < ni && qi * bi + ki % bi
                            < ni) by (nonlinear_arith)
                            requires
                                0 <= ki < ni,
                                0 < bi,
                                bi * bi == ni,
                                0 <= pi < bi,
                                0 <= qi < bi,
                        ;
                    }
                    let ri = p * b + k / b;
                    let ci = q * b + k % b;
                    proof {
                        assert(self@[ri as int] == self.0@[ri as int]@);
                    }
                    let digit = self.0[ri].0[ci];
                    proof {
                        broadcast use vstd::seq_lib::lemma_seq_contains_after_push;

                        assert(bx[k as int] == digit);
                        lemma_dup_count_le_len(bx.take(k as int));
                        lemma_dup_count_push(bx.take(k as int), digit);
                        assert(bx.take(k as int).push(digit) =~= bx.take(k as int + 1));
                    }
                    scorer.check(digit);
                    k = k + 1;
                }
                proof {
                    assert(bx.take(n as int) =~= bx);
                    let m = p as int * b as int + q as int + 1;
                    assert(boxes_dup_upto(self@, b as int, m) == boxes_dup_upto(
                        self@,
                        b as int,
                        m - 1,
                    ) + dup_count(box_at(self@, b as int, (m - 1) / b as int, (m - 1) % b as int)));
                    assert((m - 1) / b as int == p && (m - 1) % b as int == q) by (nonlinear_arith)
                        requires
                            m - 1 == p as int * b as int + q as int,
                            0 <= q < b,
                            0 <= p,
                            0 < b,
                    ;
                    lemma_boxes_dup_upto_bound(self@, b as int, m);
                    let bi = b as int;
                    let pi = p as int;
                    let qi = q as int;
                    assert(m <= bi * bi && m * (bi * bi) <= (bi * bi) * (bi * bi)) by (nonlinear_arith)
                        requires
                            m == pi * bi + qi + 1,
                            0 <= pi < bi,
                            0 <= qi < bi,
                    ;
                    assert(scorer.dup_score() == dup_count(bx));
                    assert(total == boxes_dup_upto(self@, bi, m - 1));
                    assert(total + scorer.dup_score() == boxes_dup_upto(self@, bi, m));
                    assert(boxes_dup_upto(self@, bi, m) <= n * n);
                    assert(n * n <= 625) by (nonlinear_arith)
                        requires
                            n == 4 || n == 9 || n == 16 || n == 25,
                    ;
                }
                let s = scorer.score();
                total = total + s;
                q = q + 1;
            }
            p = p + 1;
        }
        total
    }

    /// The legality score of the board: duplicate digits in rows, columns and
    /// boxes, summed. Zero exactly when no rule of Sudoku is violated.
    pub fn fitness(&self) -> (r: u32)
        requires
            is_square(self@),
            supported_size(self@.len() as int),
            cells_at_most(self@, 63),
        ensures
            r == fitness_spec(self@),
    {
        let row_dups = self.count_row_duplicates();
        let transposed = self.transpose();
        proof {
            assert(cells_at_most(transposed@, 63)) by {
                assert(forall|i: int, j: int|
                    0 <= i < transposed@.len() && 0 <= j < transposed@[i].len()
                        ==> #[trigger] transposed@[i][j] == self@[j][i]);
            }
            lemma_total_dup_count_bound(self@, self@.len());
            lemma_total_dup_count_bound(transposed@, self@.len());
            lemma_boxes_dup_upto_bound(
                self@,
                box_len_spec(self@.len() as int),
                box_len_spec(self@.len() as int) * box_len_spec(self@.len() as int),
            );
        }
        let col_dups = transposed.count_row_duplicates();
        let box_dups = self.count_box_duplicates();
        row_dups + col_dups + box_dups
    }

    /// Returns the board with rows and columns swapped.
    pub fn transpose(&self) -> (r: Board)
        requires
            is_square(self@),
        ensures
            r@ == transpose_spec(self@),
            is_square(r@),
    {
        let n = self.0.len();
        let mut rows: Vec<Row> = Vec::new();
        for j in 0..n
            invariant
                n == self@.len(),
                is_square(self@),
                rows@.len() == j,
                forall|k: int| 0 <= k < j ==> #[trigger] rows@[k]@ == transpose_spec(self@)[k],
        {
            let mut cells: Vec<u8> = Vec::new();
            for i in 0..n
                invariant
                    n == self@.len(),
                    is_square(self@),
                    0 <= j < n,
                    cells@.len() == i,
                    forall|k: int| 0 <= k < i ==> cells@[k] == transpose_spec(self@)[j as int][k],
            {
                proof {
                    assert(self@[i as int] == self.0@[i as int]@);
                }
                cells.push(self.0[i].0[j]);
            }
            rows.push(Row(cells));
        }
        let result = Board(rows);
        proof {
            assert(result@ =~= transpose_spec(self@)) by {
                assert(forall|k: int| 0 <= k < n ==> result@[k] =~= transpose_spec(self@)[k]);
            }
        }
        result
    }
}

/// Transposing twice gives the original grid back, for any square grid.
pub proof fn lemma_transpose_involution(g: Seq<Seq<u8>>)
    requires
        is_square(g),
    ensures
        transpose_spec(transpose_spec(g)) == g,
{
    assert(transpose_spec(transpose_spec(g)) =~= g) by {
        assert(forall|i: int| 0 <= i < g.len() ==> transpose_spec(transpose_spec(g))[i] =~= g[i]);
    }
}

/// Overlaying never changes a fixed (non-zero) base cell, whatever the
/// candidate holds there, and always fills a blank (zero) base cell with the
/// candidate's digit.
pub proof fn lemma_overlay_preserves_fixed_cells(
    base: Seq<Seq<u8>>,
    cand: Seq<Seq<u8>>,
    i: int,
    j: int,
)
    requires
        0 <= i < base.len(),
        0 <= j < base[i].len(),
    ensures
        base[i][j] != 0 ==> overlay_spec(base, cand)[i][j] == base[i][j],
        base[i][j] == 0 ==> overlay_spec(base, cand)[i][j] == cand[i][j],
{
}

} // verus!
