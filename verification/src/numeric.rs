//! Recognising numeric columns and how many decimal places they show.

use vstd::prelude::*;
use crate::text;
use crate::model::{TableData, ColumnMeta};

verus! {

/// An ASCII digit.
pub open spec fn is_digit(c: char) -> bool {
    '0' <= c && c <= '9'
}

/// Non-empty and all digits.
pub open spec fn digits(s: Seq<char>) -> bool {
    s.len() > 0 && forall|i: int| 0 <= i < s.len() ==> is_digit(#[trigger] s[i])
}

/// Empty or all digits.
pub open spec fn opt_digits(s: Seq<char>) -> bool {
    forall|i: int| 0 <= i < s.len() ==> is_digit(#[trigger] s[i])
}

/// `+` or `-`.
pub open spec fn is_sign(c: char) -> bool {
    c == '+' || c == '-'
}

/// `s` without one leading sign.
pub open spec fn unsigned(s: Seq<char>) -> Seq<char> {
    if s.len() > 0 && is_sign(s[0]) {
        s.drop_first()
    } else {
        s
    }
}

/// `c` is the lower-case ASCII letter `l` in either case.
pub open spec fn ci(c: char, l: char) -> bool {
    c == l || (c as u32) + 32 == l as u32
}

/// `s` spells the lower-case word `w`, ignoring ASCII case.
pub open spec fn ci_word(s: Seq<char>, w: Seq<char>) -> bool {
    s.len() == w.len() && forall|i: int| 0 <= i < s.len() ==> ci(#[trigger] s[i], w[i])
}

/// The index of the first `e` or `E` in `s`, or `s.len()`.
pub open spec fn exp_pos(s: Seq<char>) -> nat
    decreases s.len(),
{
    if s.len() == 0 {
        0
    } else if s[0] == 'e' || s[0] == 'E' {
        0
    } else {
        1 + exp_pos(s.drop_first())
    }
}

/// `Digit+ | Digit+ '.' Digit* | Digit* '.' Digit+`.
pub open spec fn mantissa(m: Seq<char>) -> bool {
    digits(m) || exists|p: int|
        0 <= p < m.len() && #[trigger] m[p] == '.' && opt_digits(m.take(p)) && opt_digits(
            m.skip(p + 1),
        ) && m.len() >= 2
}

/// `Number ::= Mantissa ('e' Sign? Digit+)?`.
pub open spec fn number(b: Seq<char>) -> bool {
    let k = exp_pos(b);
    if k >= b.len() {
        mantissa(b)
    } else {
        mantissa(b.take(k as int)) && digits(unsigned(b.skip(k as int + 1)))
    }
}

/// The strings that `f64`'s `FromStr` accepts, by the grammar its
/// documentation gives (letters in any ASCII case):
/// `Sign? ( 'inf' | 'infinity' | 'nan' | Number )`.
pub open spec fn float_literal(s: Seq<char>) -> bool {
    let b = unsigned(s);
    ||| ci_word(b, seq!['i', 'n', 'f'])
    ||| ci_word(b, seq!['i', 'n', 'f', 'i', 'n', 'i', 't', 'y'])
    ||| ci_word(b, seq!['n', 'a', 'n'])
    ||| number(b)
}

/// The number of decimal places a numeric cell shows: the characters after
/// the first `.` up to an exponent; 0 without a `.`.
pub open spec fn decimals(s: Seq<char>) -> nat {
    if s.contains('.') {
        let after = s.skip(first_dot(s) as int + 1);
        exp_pos(after)
    } else {
        0
    }
}

/// The index of the first `.` in `s`, or `s.len()`.
pub open spec fn first_dot(s: Seq<char>) -> nat
    decreases s.len(),
{
    if s.len() == 0 {
        0
    } else if s[0] == '.' {
        0
    } else {
        1 + first_dot(s.drop_first())
    }
}


fn is_digit_exec(c: char) -> (r: bool)
    ensures
        r == is_digit(c),
{
    '0' <= c && c <= '9'
}

/// Whether `m` is a mantissa: digits with at most one `.`, at least one digit.
fn is_mantissa(m: &[char]) -> (r: bool)
    ensures
        r == mantissa(m@),
{
    let mut ndig: usize = 0;
    let mut dot: Option<usize> = None;
    let mut i: usize = 0;
    while i < m.len()
        invariant
            i <= m.len(),
            dot matches Some(p) ==> p < i && m@[p as int] == '.',
            forall|j: int|
                0 <= j < i && !(dot matches Some(p) && j == p) ==> is_digit(#[trigger] m@[j]),
            ndig == if dot is Some {
                i - 1
            } else {
                i as int
            },
        decreases m.len() - i,
    {
        let c = m[i];
        if is_digit_exec(c) {
            ndig = ndig + 1;
        } else if c == '.' {
            if dot.is_some() {
                proof {
                    let q = dot.unwrap() as int;
                    assert forall|p: int|
                        0 <= p < m@.len() && #[trigger] m@[p] == '.' implies !(opt_digits(
                        m@.take(p),
                    ) && opt_digits(m@.skip(p + 1))) by {
                        if p < i {
                            if p != q {
                                assert(is_digit(m@[p]));
                            }
                            assert(m@.skip(p + 1)[i - p - 1] == m@[i as int]);
                        } else if p > i {
                            assert(m@.take(p)[i as int] == m@[i as int]);
                        } else {
                            assert(m@.take(p)[q] == m@[q]);
                        }
                    }
                    assert(!is_digit(m@[i as int]));
                }
                return false;
            }
            dot = Some(i);
        } else {
            proof {
                assert forall|p: int|
                    0 <= p < m@.len() && #[trigger] m@[p] == '.' implies !(opt_digits(m@.take(p))
                    && opt_digits(m@.skip(p + 1))) by {
                    if p < i {
                        assert(m@.skip(p + 1)[i - p - 1] == m@[i as int]);
                    } else {
                        assert(m@.take(p)[i as int] == m@[i as int]);
                    }
                }
                assert(!is_digit(m@[i as int]));
            }
            return false;
        }
        i = i + 1;
    }
    proof {
        match dot {
            None => {
                assert(opt_digits(m@));
                assert forall|p: int| 0 <= p < m@.len() implies #[trigger] m@[p] != '.' by {
                    assert(is_digit(m@[p]));
                }
            },
            Some(q) => {
                let q = q as int;
                assert(!is_digit(m@[q]));
                assert(!digits(m@));
                assert forall|k: int| 0 <= k < m@.take(q).len() implies is_digit(
                    #[trigger] m@.take(q)[k],
                ) by {
                    assert(m@.take(q)[k] == m@[k]);
                }
                assert forall|k: int| 0 <= k < m@.skip(q + 1).len() implies is_digit(
                    #[trigger] m@.skip(q + 1)[k],
                ) by {
                    assert(m@.skip(q + 1)[k] == m@[k + q + 1]);
                }
                assert forall|p: int| 0 <= p < m@.len() && #[trigger] m@[p] == '.' implies p
                    == q by {
                    if p != q {
                        assert(is_digit(m@[p]));
                    }
                }
                if ndig > 0 {
                    assert(opt_digits(m@.take(q)) && opt_digits(m@.skip(q + 1)));
                }
            },
        }
    }
    ndig > 0
}

/// The index of the first `e` or `E` in `s`, or `s.len()`.
fn find_exp(s: &[char]) -> (k: usize)
    ensures
        k == exp_pos(s@),
        k <= s.len(),
{
    let mut k: usize = 0;
    assert(s@.skip(0) =~= s@);
    while k < s.len() && s[k] != 'e' && s[k] != 'E'
        invariant
            k <= s.len(),
            exp_pos(s@) == k + exp_pos(s@.skip(k as int)),
        decreases s.len() - k,
    {
        assert(s@.skip(k as int).drop_first() =~= s@.skip(k + 1));
        k = k + 1;
    }
    k
}

/// The index of the first `.` in `s`, or `s.len()`.
fn find_dot(s: &[char]) -> (k: usize)
    ensures
        k == first_dot(s@),
        k <= s.len(),
        k < s.len() ==> s@[k as int] == '.',
        forall|j: int| 0 <= j < k ==> #[trigger] s@[j] != '.',
{
    let mut k: usize = 0;
    assert(s@.skip(0) =~= s@);
    while k < s.len() && s[k] != '.'
        invariant
            k <= s.len(),
            first_dot(s@) == k + first_dot(s@.skip(k as int)),
            forall|j: int| 0 <= j < k ==> #[trigger] s@[j] != '.',
        decreases s.len() - k,
    {
        assert(s@.skip(k as int).drop_first() =~= s@.skip(k + 1));
        k = k + 1;
    }
    k
}

fn ci_exec(c: char, l: char) -> (r: bool)
    ensures
        r == ci(c, l),
{
    c == l || (c as u32) + 32 == l as u32
}

pub fn ci_word_exec(s: &[char], w: &[char]) -> (r: bool)
    ensures
        r == ci_word(s@, w@),
{
    if s.len() != w.len() {
        return false;
    }
    let mut i: usize = 0;
    while i < s.len()
        invariant
            i <= s.len(),
            s@.len() == w@.len(),
            forall|j: int| 0 <= j < i ==> ci(#[trigger] s@[j], w@[j]),
        decreases s.len() - i,
    {
        if !ci_exec(s[i], w[i]) {
            return false;
        }
        i = i + 1;
    }
    true
}

fn all_digits(s: &[char]) -> (r: bool)
    ensures
        r == digits(s@),
{
    if s.len() == 0 {
        return false;
    }
    let mut i: usize = 0;
    while i < s.len()
        invariant
            i <= s.len(),
            forall|j: int| 0 <= j < i ==> is_digit(#[trigger] s@[j]),
        decreases s.len() - i,
    {
        if !is_digit_exec(s[i]) {
            return false;
        }
        i = i + 1;
    }
    true
}

/// Whether `s` is a number that `f64` parsing accepts.
pub fn is_float_literal(s: &[char]) -> (r: bool)
    ensures
        r == float_literal(s@),
{
    let b: &[char] = if s.len() > 0 && (s[0] == '+' || s[0] == '-') {
        &s[1..s.len()]
    } else {
        s
    };
    assert(b@ == unsigned(s@));
    let inf: [char; 3] = ['i', 'n', 'f'];
    let infinity: [char; 8] = ['i', 'n', 'f', 'i', 'n', 'i', 't', 'y'];
    let nan: [char; 3] = ['n', 'a', 'n'];
    assert(inf@ == seq!['i', 'n', 'f']);
    assert(infinity@ == seq!['i', 'n', 'f', 'i', 'n', 'i', 't', 'y']);
    assert(nan@ == seq!['n', 'a', 'n']);
    if ci_word_exec(b, &inf) || ci_word_exec(b, &infinity) || ci_word_exec(b, &nan) {
        return true;
    }
    let k = find_exp(b);
    if k >= b.len() {
        is_mantissa(b)
    } else {
        let m = &b[0..k];
        let x = &b[k + 1..b.len()];
        assert(m@ == b@.take(k as int));
        assert(x@ == b@.skip(k + 1));
        let xu: &[char] = if x.len() > 0 && (x[0] == '+' || x[0] == '-') {
            &x[1..x.len()]
        } else {
            x
        };
        assert(xu@ == unsigned(x@));
        is_mantissa(m) && all_digits(xu)
    }
}

/// The number of decimal places a numeric cell shows.
pub fn decimal_places(s: &[char]) -> (n: usize)
    ensures
        n == decimals(s@),
{
    let d = find_dot(s);
    if d < s.len() {
        assert(s@.contains('.'));
        let after = &s[d + 1..s.len()];
        find_exp(after)
    } else {
        assert(!s@.contains('.'));
        0
    }
}


/// The state of a column scan: every non-empty cell so far numeric, some
/// non-empty cell seen, the most decimal places so far.
pub type ScanState = (bool, bool, nat);

/// One step of the scan: empty cells are skipped; the first non-numeric cell
/// ends the scan.
pub open spec fn scan_step(st: ScanState, cell: Seq<char>) -> ScanState {
    let c = text::trim(cell);
    if !st.0 || c.len() == 0 {
        st
    } else if float_literal(c) {
        (true, true, if decimals(c) > st.2 { decimals(c) } else { st.2 })
    } else {
        (false, true, st.2)
    }
}

/// The scan of a column's cells, from the top.
pub open spec fn scan(cells: Seq<Seq<char>>) -> ScanState
    decreases cells.len(),
{
    if cells.len() == 0 {
        (true, false, 0)
    } else {
        scan_step(scan(cells.drop_last()), cells.last())
    }
}

/// The cells of column `c`.
pub open spec fn column(rows: Seq<Seq<Seq<char>>>, c: int) -> Seq<Seq<char>> {
    rows.map_values(|r: Seq<Seq<char>>| r[c])
}

/// The analysis of column `c`: numeric when it has a non-empty cell and all
/// its non-empty cells parse as numbers; the most decimal places among the
/// cells read before the first non-numeric one.
pub open spec fn column_meta_of(rows: Seq<Seq<Seq<char>>>, c: int) -> ColumnMeta {
    let st = scan(column(rows, c));
    ColumnMeta { is_numeric: st.0 && st.1, max_decimal_places: st.2 as usize }
}

/// Every column of `t` carries the analysis of its cells.
pub open spec fn analysed(t: TableData) -> bool {
    &&& t.well_formed()
    &&& forall|c: int|
        0 <= c < t.column_meta@.len() ==> #[trigger] t.column_meta@[c] == column_meta_of(
            t.row_view(),
            c,
        )
}

/// The scan never records more decimal places than the longest cell.
proof fn lemma_scan_bound(cells: Seq<Seq<char>>, bound: nat)
    requires
        forall|i: int| 0 <= i < cells.len() ==> #[trigger] cells[i].len() <= bound,
    ensures
        scan(cells).2 <= bound,
    decreases cells.len(),
{
    if cells.len() > 0 {
        lemma_scan_bound(cells.drop_last(), bound);
        let c = text::trim(cells.last());
        lemma_decimals_bound(c);
        lemma_trim_len(cells.last());
    }
}

proof fn lemma_trim_len(s: Seq<char>)
    ensures
        text::trim(s).len() <= s.len(),
{
    lemma_trim_start_len(s);
    lemma_trim_end_len(text::trim_start(s));
}

proof fn lemma_trim_start_len(s: Seq<char>)
    ensures
        text::trim_start(s).len() <= s.len(),
    decreases s.len(),
{
    if s.len() > 0 && text::is_white(s[0]) {
        lemma_trim_start_len(s.drop_first());
    }
}

proof fn lemma_trim_end_len(s: Seq<char>)
    ensures
        text::trim_end(s).len() <= s.len(),
    decreases s.len(),
{
    if s.len() > 0 && text::is_white(s.last()) {
        lemma_trim_end_len(s.drop_last());
    }
}

proof fn lemma_exp_pos_bound(s: Seq<char>)
    ensures
        exp_pos(s) <= s.len(),
    decreases s.len(),
{
    if s.len() > 0 && s[0] != 'e' && s[0] != 'E' {
        lemma_exp_pos_bound(s.drop_first());
    }
}

proof fn lemma_first_dot_bound(s: Seq<char>)
    ensures
        first_dot(s) <= s.len(),
    decreases s.len(),
{
    if s.len() > 0 && s[0] != '.' {
        lemma_first_dot_bound(s.drop_first());
    }
}

proof fn lemma_first_dot_found(s: Seq<char>)
    ensures
        s.contains('.') ==> first_dot(s) < s.len(),
    decreases s.len(),
{
    if s.len() > 0 && s[0] != '.' {
        lemma_first_dot_found(s.drop_first());
        if s.contains('.') {
            let i = choose|i: int| 0 <= i < s.len() && s[i] == '.';
            assert(s.drop_first()[i - 1] == '.');
        }
    }
}

proof fn lemma_decimals_bound(s: Seq<char>)
    ensures
        decimals(s) <= s.len(),
{
    lemma_first_dot_bound(s);
    lemma_first_dot_found(s);
    if s.contains('.') {
        let after = s.skip(first_dot(s) as int + 1);
        lemma_exp_pos_bound(after);
    }
}

/// Scans column `col_idx`: whether it is numeric and its most decimal places.
fn analyze_column(data: &TableData, col_idx: usize) -> (r: (bool, usize))
    requires
        crate::model::rows_cover(data.row_view(), col_idx + 1),
    ensures
        r.0 == column_meta_of(data.row_view(), col_idx as int).is_numeric,
        r.1 == column_meta_of(data.row_view(), col_idx as int).max_decimal_places,
{
    let ghost cells = column(data.row_view(), col_idx as int);
    let mut all_numeric = true;
    let mut any_non_empty = false;
    let mut max_dec: usize = 0;
    let mut i: usize = 0;
    while i < data.rows.len()
        invariant
            i <= data.rows@.len(),
            cells == column(data.row_view(), col_idx as int),
            crate::model::rows_cover(data.row_view(), col_idx + 1),
            scan(cells.take(i as int)) == (all_numeric, any_non_empty, max_dec as nat),
        decreases data.rows.len() - i,
    {
        assert(cells.take(i + 1).drop_last() =~= cells.take(i as int));
        assert(data.row_view()[i as int].len() >= col_idx + 1);
        assert(cells.take(i + 1).last() == data.rows@[i as int]@[col_idx as int]@);
        if all_numeric {
            let v = text::chars_of(data.rows[i][col_idx].as_str());
            let (a, b) = text::trim_bounds(v.as_slice());
            let cell = &v.as_slice()[a..b];
            if a < b {
                any_non_empty = true;
                if is_float_literal(cell) {
                    let d = decimal_places(cell);
                    proof {
                        lemma_decimals_bound(cell@);
                    }
                    if d > max_dec {
                        max_dec = d;
                    }
                } else {
                    all_numeric = false;
                }
            }
        }
        i = i + 1;
    }
    assert(cells.take(data.rows.len() as int) =~= cells);
    (all_numeric && any_non_empty, max_dec)
}

/// Sets each header's column analysis: numeric or not, and its most decimal
/// places. Analyses past the last header are left as they are.
pub fn populate_column_meta(data: &mut TableData)
    requires
        old(data).column_meta@.len() >= old(data).headers@.len(),
        crate::model::rows_cover(old(data).row_view(), old(data).headers@.len() as int),
    ensures
        final(data).headers == old(data).headers,
        final(data).rows == old(data).rows,
        final(data).column_meta@.len() == old(data).column_meta@.len(),
        forall|c: int|
            0 <= c < old(data).headers@.len() ==> #[trigger] final(data).column_meta@[c]
                == column_meta_of(old(data).row_view(), c),
        forall|c: int|
            old(data).headers@.len() <= c < old(data).column_meta@.len()
                ==> #[trigger] final(data).column_meta@[c] == old(data).column_meta@[c],
        old(data).well_formed() ==> final(data).well_formed(),
{
    let n = data.headers.len();
    let ghost meta0 = data.column_meta@;
    let mut c: usize = 0;
    while c < n
        invariant
            c <= n,
            n == data.headers@.len(),
            data.headers == old(data).headers,
            data.rows == old(data).rows,
            data.column_meta@.len() == meta0.len(),
            meta0 == old(data).column_meta@,
            meta0.len() >= n,
            crate::model::rows_cover(data.row_view(), n as int),
            forall|k: int| 0 <= k < c ==> #[trigger] data.column_meta@[k] == column_meta_of(data.row_view(), k),
            forall|k: int| c <= k < meta0.len() ==> #[trigger] data.column_meta@[k] == meta0[k],
        decreases n - c,
    {
        let (is_numeric, max_dec) = analyze_column(data, c);
        data.column_meta.set(c, ColumnMeta { is_numeric, max_decimal_places: max_dec });
        c = c + 1;
    }
}

} // verus!
