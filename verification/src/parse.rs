//! Reading delimited text (CSV, TSV, PSV) into a `TableData`.

use vstd::prelude::*;
use crate::model::TableData;
use crate::error::TableError;
use crate::csv_api;

verus! {

/// `u8::is_ascii_whitespace`: space, tab, line feed, form feed, carriage return.
pub open spec fn is_ascii_ws(b: u8) -> bool {
    b == 0x20 || b == 0x09 || b == 0x0a || b == 0x0c || b == 0x0d
}

/// `s` without leading ASCII white space.
pub open spec fn trim_start_bytes(s: Seq<u8>) -> Seq<u8>
    decreases s.len(),
{
    if s.len() > 0 && is_ascii_ws(s[0]) {
        trim_start_bytes(s.drop_first())
    } else {
        s
    }
}

/// `s` without trailing ASCII white space.
pub open spec fn trim_end_bytes(s: Seq<u8>) -> Seq<u8>
    decreases s.len(),
{
    if s.len() > 0 && is_ascii_ws(s.last()) {
        trim_end_bytes(s.drop_last())
    } else {
        s
    }
}

/// `s` without leading and trailing ASCII white space.
pub open spec fn trim_bytes_spec(s: Seq<u8>) -> Seq<u8> {
    trim_end_bytes(trim_start_bytes(s))
}

proof fn lemma_trim_start_bytes_skip(s: Seq<u8>, i: int)
    requires
        0 <= i <= s.len(),
        forall|j: int| 0 <= j < i ==> is_ascii_ws(#[trigger] s[j]),
    ensures
        trim_start_bytes(s) == trim_start_bytes(s.skip(i)),
    decreases i,
{
    if i > 0 {
        assert(is_ascii_ws(s[0]));
        assert(s.drop_first().skip(i - 1) =~= s.skip(i));
        assert forall|j: int| 0 <= j < i - 1 implies is_ascii_ws(#[trigger] s.drop_first()[j]) by {
            assert(s.drop_first()[j] == s[j + 1]);
        }
        lemma_trim_start_bytes_skip(s.drop_first(), i - 1);
    } else {
        assert(s.skip(0) =~= s);
    }
}

proof fn lemma_trim_end_bytes_take(s: Seq<u8>, i: int)
    requires
        0 <= i <= s.len(),
        forall|j: int| i <= j < s.len() ==> is_ascii_ws(#[trigger] s[j]),
    ensures
        trim_end_bytes(s) == trim_end_bytes(s.take(i)),
    decreases s.len() - i,
{
    if i < s.len() {
        assert(s.drop_last().take(i) =~= s.take(i));
        lemma_trim_end_bytes_take(s.drop_last(), i);
    } else {
        assert(s.take(i) =~= s);
    }
}

fn is_ascii_ws_exec(b: u8) -> (r: bool)
    ensures
        r == is_ascii_ws(b),
{
    b == 0x20 || b == 0x09 || b == 0x0a || b == 0x0c || b == 0x0d
}

/// The bounds of `s` without its surrounding ASCII white space.
fn trim_bytes(s: &[u8]) -> (r: (usize, usize))
    ensures
        r.0 <= r.1 <= s.len(),
        s@.subrange(r.0 as int, r.1 as int) == trim_bytes_spec(s@),
{
    let mut a: usize = 0;
    while a < s.len() && is_ascii_ws_exec(s[a])
        invariant
            a <= s.len(),
            forall|j: int| 0 <= j < a ==> is_ascii_ws(#[trigger] s@[j]),
        decreases s.len() - a,
    {
        a = a + 1;
    }
    proof {
        lemma_trim_start_bytes_skip(s@, a as int);
        if a < s.len() {
            assert(trim_start_bytes(s@.skip(a as int)) == s@.skip(a as int));
        } else {
            assert(s@.skip(a as int).len() == 0);
        }
    }
    let ghost rest = s@.skip(a as int);
    let mut b: usize = s.len();
    while b > a && is_ascii_ws_exec(s[b - 1])
        invariant
            a <= b <= s.len(),
            rest == s@.skip(a as int),
            forall|j: int| b <= j < s.len() ==> is_ascii_ws(#[trigger] s@[j]),
        decreases b,
    {
        b = b - 1;
    }
    proof {
        assert forall|j: int| b - a <= j < rest.len() implies is_ascii_ws(#[trigger] rest[j]) by {
            assert(rest[j] == s@[j + a]);
        }
        lemma_trim_end_bytes_take(rest, b - a);
        if b > a {
            assert(rest.take(b - a).last() == s@[b - 1]);
        }
        assert(rest.take(b - a) =~= s@.subrange(a as int, b as int));
    }
    (a, b)
}

/// `s` cut at every `\n`: one more piece than there are newlines.
pub open spec fn split_newlines(s: Seq<u8>) -> Seq<Seq<u8>>
    decreases s.len(),
{
    if s.len() == 0 {
        seq![Seq::empty()]
    } else {
        let p = split_newlines(s.drop_last());
        if s.last() == 0x0a {
            p.push(Seq::empty())
        } else {
            p.update(p.len() - 1, p.last().push(s.last()))
        }
    }
}

/// A line of delimited text without a trailing carriage return, surrounding
/// white space, and one delimiter at each end.
pub open spec fn unframe(l: Seq<u8>, d: u8) -> Seq<u8> {
    let l1 = if l.len() > 0 && l.last() == 0x0d {
        l.drop_last()
    } else {
        l
    };
    let t = trim_bytes_spec(l1);
    let a = if t.len() > 0 && t[0] == d {
        t.drop_first()
    } else {
        t
    };
    if a.len() > 0 && a.last() == d {
        a.drop_last()
    } else {
        a
    }
}

/// Each piece unframed and followed by a newline.
pub open spec fn unframe_all(ps: Seq<Seq<u8>>, d: u8) -> Seq<u8>
    decreases ps.len(),
{
    if ps.len() == 0 {
        Seq::empty()
    } else {
        unframe_all(ps.drop_last(), d) + unframe(ps.last(), d) + seq![0x0au8]
    }
}

/// The input with every line unframed, so that `| a | b |` reads like `a | b`.
pub open spec fn framed_stripped(raw: Seq<u8>, d: u8) -> Seq<u8> {
    unframe_all(split_newlines(raw), d)
}

/// Appends the unframed `line` and a newline to `out`.
fn push_unframed(out: &mut Vec<u8>, line: &[u8], d: u8)
    ensures
        final(out)@ == old(out)@ + unframe(line@, d) + seq![0x0au8],
{
    let l1: &[u8] = if line.len() > 0 && line[line.len() - 1] == 0x0d {
        &line[0..line.len() - 1]
    } else {
        line
    };
    assert(l1@ == (if line@.len() > 0 && line@.last() == 0x0d {
        line@.drop_last()
    } else {
        line@
    }));
    let (a, b) = trim_bytes(l1);
    let mut s = a;
    let mut e = b;
    if s < e && l1[s] == d {
        s = s + 1;
    }
    if s < e && l1[e - 1] == d {
        e = e - 1;
    }
    assert(l1@.subrange(s as int, e as int) =~= unframe(line@, d));
    let mut i = s;
    while i < e
        invariant
            s <= i <= e <= l1@.len(),
            out@ == old(out)@ + l1@.subrange(s as int, i as int),
        decreases e - i,
    {
        out.push(l1[i]);
        i = i + 1;
        assert(out@ =~= old(out)@ + l1@.subrange(s as int, i as int));
    }
    out.push(0x0a);
}

/// The input with one delimiter stripped from each end of every line (after
/// trimming), so that framed rows like `| a | b |` read like `a | b`.
pub fn strip_framing_delimiters(raw: &[u8], delimiter: u8) -> (out: Vec<u8>)
    ensures
        out@ == framed_stripped(raw@, delimiter),
{
    let mut out: Vec<u8> = Vec::new();
    let mut start: usize = 0;
    let mut i: usize = 0;
    let ghost mut done: Seq<Seq<u8>> = Seq::empty();
    assert(raw@.take(0) =~= Seq::<u8>::empty());
    assert(split_newlines(raw@.take(0)) =~= done.push(raw@.subrange(0, 0)));
    while i < raw.len()
        invariant
            start <= i <= raw.len(),
            split_newlines(raw@.take(i as int)) == done.push(raw@.subrange(start as int, i as int)),
            out@ == unframe_all(done, delimiter),
        decreases raw.len() - i,
    {
        assert(raw@.take(i + 1).drop_last() =~= raw@.take(i as int));
        assert(raw@.take(i + 1).last() == raw@[i as int]);
        if raw[i] == 0x0a {
            push_unframed(&mut out, &raw[start..i], delimiter);
            proof {
                let d2 = done.push(raw@.subrange(start as int, i as int));
                assert(d2.drop_last() =~= done);
                done = d2;
            }
            start = i + 1;
            assert(raw@.subrange(start as int, i + 1) =~= Seq::<u8>::empty());
            assert(split_newlines(raw@.take(i + 1)) =~= done.push(raw@.subrange(start as int, i + 1)));
        } else {
            assert(raw@.subrange(start as int, i as int).push(raw@[i as int]) =~= raw@.subrange(
                start as int,
                i + 1,
            ));
            assert(split_newlines(raw@.take(i + 1)) =~= done.push(raw@.subrange(start as int, i + 1)));
        }
        i = i + 1;
    }
    push_unframed(&mut out, &raw[start..raw.len()], delimiter);
    proof {
        let d2 = done.push(raw@.subrange(start as int, raw.len() as int));
        assert(d2.drop_last() =~= done);
        assert(raw@.take(raw.len() as int) =~= raw@);
    }
    out
}

/// Lines joined by `\n`, without a final one.
pub open spec fn join_bytes(ls: Seq<Seq<u8>>) -> Seq<u8>
    decreases ls.len(),
{
    if ls.len() == 0 {
        Seq::empty()
    } else if ls.len() == 1 {
        ls[0]
    } else {
        join_bytes(ls.drop_last()) + seq![0x0au8] + ls.last()
    }
}

/// A line of delimited fields as written plainly: no line feed, no white
/// space at either end, and no delimiter at either end.
pub open spec fn plain_fields(l: Seq<u8>, d: u8) -> bool {
    &&& !l.contains(0x0au8)
    &&& l.len() > 0 ==> !is_ascii_ws(l[0]) && !is_ascii_ws(l.last()) && l[0] != d && l.last() != d
}

/// Each line with one delimiter at each end, as framed rows are written.
pub open spec fn framed_lines(ls: Seq<Seq<u8>>, d: u8) -> Seq<Seq<u8>> {
    ls.map_values(|l: Seq<u8>| seq![d] + l + seq![d])
}

/// Text without a line feed extends the last piece.
proof fn lemma_split_newlines_extend(s: Seq<u8>, x: Seq<u8>)
    requires
        !x.contains(0x0au8),
    ensures
        split_newlines(s + x) == split_newlines(s).update(
            split_newlines(s).len() - 1,
            split_newlines(s).last() + x,
        ),
        split_newlines(s).len() > 0,
    decreases x.len(),
{
    lemma_split_newlines_nonempty(s);
    if x.len() == 0 {
        assert(s + x =~= s);
        assert(split_newlines(s).last() + x =~= split_newlines(s).last());
        assert(split_newlines(s).update(split_newlines(s).len() - 1, split_newlines(s).last())
            =~= split_newlines(s));
    } else {
        let y = x.drop_last();
        assert(!y.contains(0x0au8)) by {
            if y.contains(0x0au8) {
                let j = choose|j: int| 0 <= j < y.len() && y[j] == 0x0au8;
                assert(x[j] == 0x0au8);
            }
        }
        lemma_split_newlines_extend(s, y);
        assert((s + x).drop_last() =~= s + y);
        assert((s + x).last() == x.last());
        assert(x.last() != 0x0au8) by {
            assert(x[x.len() - 1] == x.last());
        }
        let p = split_newlines(s);
        assert((p.last() + y).push(x.last()) =~= p.last() + x);
        assert(split_newlines(s + x) =~= p.update(p.len() - 1, p.last() + x));
    }
}

proof fn lemma_split_newlines_nonempty(s: Seq<u8>)
    ensures
        split_newlines(s).len() > 0,
    decreases s.len(),
{
    if s.len() > 0 {
        lemma_split_newlines_nonempty(s.drop_last());
    }
}

/// Lines without line feeds, joined, split back into the same lines.
proof fn lemma_split_join(ls: Seq<Seq<u8>>)
    requires
        ls.len() > 0,
        forall|q: int| 0 <= q < ls.len() ==> !(#[trigger] ls[q]).contains(0x0au8),
    ensures
        split_newlines(join_bytes(ls)) == ls,
    decreases ls.len(),
{
    if ls.len() == 1 {
        lemma_split_newlines_extend(Seq::empty(), ls[0]);
        assert(Seq::<u8>::empty() + ls[0] =~= ls[0]);
        assert(split_newlines(Seq::<u8>::empty()) == seq![Seq::<u8>::empty()]);
        assert(split_newlines(ls[0]) =~= ls);
    } else {
        let init = ls.drop_last();
        lemma_split_join(init);
        let j = join_bytes(init).push(0x0au8);
        assert(j.drop_last() =~= join_bytes(init));
        assert(split_newlines(j) == ls.drop_last().push(Seq::<u8>::empty()));
        lemma_split_newlines_extend(j, ls.last());
        assert(join_bytes(ls) =~= j + ls.last());
        assert(Seq::<u8>::empty() + ls.last() =~= ls.last());
        assert(split_newlines(join_bytes(ls)) =~= ls);
    }
}

/// A plain line comes out of unframing as it is.
proof fn lemma_unframe_plain(l: Seq<u8>, d: u8)
    requires
        plain_fields(l, d),
    ensures
        unframe(l, d) == l,
{
    if l.len() > 0 {
        assert(l.last() != 0x0d);
        assert(trim_start_bytes(l) == l);
        assert(trim_end_bytes(l) == l);
    }
}

/// A framed plain line comes out of unframing as the plain line.
proof fn lemma_unframe_framed(l: Seq<u8>, d: u8)
    requires
        plain_fields(l, d),
        d != 0x0au8,
    ensures
        unframe(seq![d] + l + seq![d], d) == l,
{
    let f = seq![d] + l + seq![d];
    assert(f.last() == d);
    assert(f[0] == d);
    let l1 = if f.len() > 0 && f.last() == 0x0d {
        f.drop_last()
    } else {
        f
    };
    assert(trim_start_bytes(l) == l);
    assert(trim_end_bytes(l) == l);
    if d == 0x0du8 {
        assert(l1 =~= seq![d] + l);
        assert(l1.drop_first() =~= l);
        assert(trim_start_bytes(l1) == trim_start_bytes(l));
        assert(trim_bytes_spec(l1) == l);
    } else if is_ascii_ws(d) {
        assert(l1 == f);
        let g = l + seq![d];
        assert(f.drop_first() =~= g);
        assert(trim_start_bytes(f) == trim_start_bytes(g));
        assert(g.drop_last() =~= l);
        if l.len() > 0 {
            assert(g[0] == l[0]);
            assert(trim_start_bytes(g) == g);
        } else {
            assert(g.drop_first() =~= Seq::<u8>::empty());
            assert(trim_start_bytes(g.drop_first()) == Seq::<u8>::empty());
            assert(trim_start_bytes(g) == Seq::<u8>::empty());
            assert(trim_end_bytes(Seq::<u8>::empty()) == Seq::<u8>::empty());
        }
        assert(trim_bytes_spec(l1) == l);
    } else {
        assert(l1 == f);
        assert(trim_start_bytes(f) == f);
        assert(trim_end_bytes(f) == f);
        assert(trim_bytes_spec(l1) == f);
        assert(f.drop_first() =~= l + seq![d]);
        assert((l + seq![d]).drop_last() =~= l);
        assert((l + seq![d]).last() == d);
        assert(unframe(f, d) == l);
    }
}

/// Pieces that unframe alike give the same unframed text.
proof fn lemma_unframe_all_alike(ps: Seq<Seq<u8>>, qs: Seq<Seq<u8>>, d: u8)
    requires
        ps.len() == qs.len(),
        forall|i: int| 0 <= i < ps.len() ==> unframe(#[trigger] ps[i], d) == unframe(qs[i], d),
    ensures
        unframe_all(ps, d) == unframe_all(qs, d),
    decreases ps.len(),
{
    if ps.len() > 0 {
        lemma_unframe_all_alike(ps.drop_last(), qs.drop_last(), d);
        assert(unframe(ps[ps.len() - 1], d) == unframe(qs[qs.len() - 1], d));
    }
}

/// Framed rows read like plain ones: lines of fields each written with one
/// delimiter at each end read as the same table (or the same error) as the
/// lines written plainly, for any delimiter but the line feed.
pub proof fn law_framed_rows_read_as_plain(ls: Seq<Seq<u8>>, d: u8)
    requires
        ls.len() > 0,
        d != 0x0au8,
        forall|q: int| 0 <= q < ls.len() ==> plain_fields(#[trigger] ls[q], d),
    ensures
        csv_table(join_bytes(framed_lines(ls, d)), d) == csv_table(join_bytes(ls), d),
{
    let fl = framed_lines(ls, d);
    assert forall|q: int| 0 <= q < ls.len() implies !(#[trigger] ls[q]).contains(0x0au8) by {
        assert(plain_fields(ls[q], d));
    }
    assert forall|q: int| 0 <= q < fl.len() implies !(#[trigger] fl[q]).contains(0x0au8) by {
        assert(plain_fields(ls[q], d));
        let f = fl[q];
        assert(f == seq![d] + ls[q] + seq![d]);
        if f.contains(0x0au8) {
            let j = choose|j: int| 0 <= j < f.len() && f[j] == 0x0au8;
            if 0 < j < f.len() - 1 {
                assert(ls[q][j - 1] == 0x0au8);
            }
        }
    }
    lemma_split_join(ls);
    lemma_split_join(fl);
    assert forall|i: int| 0 <= i < fl.len() implies unframe(#[trigger] fl[i], d) == unframe(ls[i], d) by {
        assert(plain_fields(ls[i], d));
        lemma_unframe_plain(ls[i], d);
        lemma_unframe_framed(ls[i], d);
    }
    lemma_unframe_all_alike(fl, ls, d);
}

/// The table read from delimited text: the `csv` reader's header and records
/// of the unframed input.
pub open spec fn csv_table(raw: Seq<u8>, delimiter: u8) -> Result<(Seq<Seq<char>>, Seq<Seq<Seq<char>>>), TableError> {
    match csv_api::csv_records(framed_stripped(raw, delimiter), delimiter) {
        Some(v) => Ok(v),
        None => Err(TableError::Csv),
    }
}

/// Reads CSV (or TSV, PSV, any single-byte delimiter) into a table, the first
/// record being the header. Framed rows like `| a | b |` read like `a | b`.
pub fn parse_csv(input: &[u8], delimiter: u8) -> (res: Result<TableData, TableError>)
    ensures
        crate::table_parse::parsed_as(res, csv_table(input@, delimiter)),
        res matches Ok(t) ==> crate::model::rows_cover(t.row_view(), t.headers@.len() as int),
{
    let processed = strip_framing_delimiters(input, delimiter);
    match csv_api::read_csv(processed.as_slice(), delimiter) {
        Ok((headers, rows)) => Ok(TableData::new(headers, rows)),
        Err(_) => Err(TableError::Csv),
    }
}

} // verus!
