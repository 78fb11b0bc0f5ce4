//! Regenerating the `## unreleased` section of a changelog from the subjects
//! of the commits since the last release.

use vstd::prelude::*;
use crate::text;
use crate::error::TableError;

verus! {

/// Commit subjects beginning with one of these are left out of the changelog.
pub open spec fn noise_prefixes() -> Seq<Seq<char>> {
    seq!["build:"@, "ci:"@, "docs:"@, "chore:"@, "refact:"@, "refactor"@, "test"@]
}

/// Whether a commit subject is one the changelog leaves out.
pub open spec fn is_noise(subject: Seq<char>) -> bool {
    exists|k: int|
        0 <= k < noise_prefixes().len() && text::starts_with(subject, #[trigger] noise_prefixes()[k])
}

/// The changelog bullets of some commit subjects: `- ` before each non-empty
/// subject that is not noise, in order.
pub open spec fn bullets_of(subjects: Seq<Seq<char>>) -> Seq<Seq<char>>
    decreases subjects.len(),
{
    if subjects.len() == 0 {
        Seq::empty()
    } else {
        let b = bullets_of(subjects.drop_last());
        let l = subjects.last();
        if l.len() > 0 && !is_noise(l) {
            b.push("- "@ + l)
        } else {
            b
        }
    }
}

/// The `k`-th noise prefix.
fn noise_prefix(k: usize) -> (p: &'static str)
    requires
        k < 7,
    ensures
        p@ == noise_prefixes()[k as int],
{
    match k {
        0 => "build:",
        1 => "ci:",
        2 => "docs:",
        3 => "chore:",
        4 => "refact:",
        5 => "refactor",
        _ => "test",
    }
}

/// Whether `subject` begins with a noise prefix.
fn is_noise_exec(subject: &[char]) -> (r: bool)
    ensures
        r == is_noise(subject@),
{
    let mut k: usize = 0;
    while k < 7
        invariant
            k <= 7,
            forall|j: int| 0 <= j < k ==> !text::starts_with(subject@, #[trigger] noise_prefixes()[j]),
        decreases 7 - k,
    {
        let p = text::chars_of(noise_prefix(k));
        if text::has_prefix(subject, p.as_slice()) {
            assert(text::starts_with(subject@, noise_prefixes()[k as int]));
            return true;
        }
        k = k + 1;
    }
    assert(noise_prefixes().len() == 7);
    false
}

/// The bullets for the subjects in a `git log --format=%s` output, one
/// subject per line.
pub fn changelog_bullets(log_text: &str) -> (b: Vec<String>)
    ensures
        b.deep_view() == bullets_of(text::lines_of(log_text@)),
{
    let chars = text::chars_of(log_text);
    let lines = text::split_lines(chars.as_slice());
    let ghost ls = text::char_rows(lines@);
    let mut out: Vec<String> = Vec::new();
    let mut i: usize = 0;
    while i < lines.len()
        invariant
            i <= lines@.len(),
            ls == text::char_rows(lines@),
            out.deep_view() == bullets_of(ls.take(i as int)),
        decreases lines.len() - i,
    {
        assert(ls.take(i + 1).drop_last() =~= ls.take(i as int));
        assert(ls.take(i + 1).last() == lines@[i as int]@);
        let l = lines[i].as_slice();
        if l.len() > 0 && !is_noise_exec(l) {
            let mut s = String::new();
            s.push('-');
            s.push(' ');
            text::push_chars(&mut s, l);
            proof {
                reveal_strlit("- ");
            }
            assert(s@ =~= "- "@ + l@);
            let ghost before = out.deep_view();
            out.push(s);
            assert(out.deep_view() =~= before.push("- "@ + l@));
        }
        i = i + 1;
    }
    assert(ls.take(lines.len() as int) =~= ls);
    out
}

/// The heading the bullets go under.
pub open spec fn unreleased_heading() -> Seq<char> {
    "## unreleased"@
}

/// Whether a line opens a section of the changelog.
pub open spec fn is_section_heading(l: Seq<char>) -> bool {
    text::starts_with(l, "## "@)
}

/// The first index below `n` of a line that is exactly the unreleased heading.
pub open spec fn heading_index(ls: Seq<Seq<char>>, n: int) -> Option<int>
    decreases n,
{
    if n <= 0 {
        None
    } else {
        match heading_index(ls, n - 1) {
            Some(i) => Some(i),
            None => if ls[n - 1] == unreleased_heading() {
                Some(n - 1)
            } else {
                None
            },
        }
    }
}

/// The first index in `lo..n` of a line that opens a section.
pub open spec fn next_section(ls: Seq<Seq<char>>, lo: int, n: int) -> Option<int>
    decreases n - lo,
{
    if n <= lo {
        None
    } else {
        match next_section(ls, lo, n - 1) {
            Some(i) => Some(i),
            None => if is_section_heading(ls[n - 1]) {
                Some(n - 1)
            } else {
                None
            },
        }
    }
}

/// A first index stays the first as the range grows.
proof fn lemma_heading_index_stays(ls: Seq<Seq<char>>, n: int, m: int)
    requires
        n <= m,
        heading_index(ls, n) is Some,
    ensures
        heading_index(ls, m) == heading_index(ls, n),
    decreases m - n,
{
    if n < m {
        lemma_heading_index_stays(ls, n, m - 1);
    }
}

/// A first index stays the first as the range grows.
proof fn lemma_next_section_stays(ls: Seq<Seq<char>>, lo: int, n: int, m: int)
    requires
        n <= m,
        next_section(ls, lo, n) is Some,
    ensures
        next_section(ls, lo, m) == next_section(ls, lo, n),
    decreases m - n,
{
    if n < m {
        lemma_next_section_stays(ls, lo, n, m - 1);
    }
}

/// The changelog `text` with the body of its `## unreleased` section (up to
/// the next `## ` heading or the end) replaced by a blank line, the bullets
/// and a blank line; its lines joined with newlines, and a final newline.
/// `None` when no line is exactly `## unreleased`.
pub open spec fn updated_changelog(changelog: Seq<char>, bullets: Seq<Seq<char>>) -> Option<Seq<char>> {
    let ls = text::lines_of(changelog);
    match heading_index(ls, ls.len() as int) {
        None => None,
        Some(i) => {
            let e = match next_section(ls, i + 1, ls.len() as int) {
                Some(j) => j,
                None => ls.len() as int,
            };
            Some(
                text::join_lines(
                    ls.take(i + 1) + seq![Seq::<char>::empty()] + bullets + seq![Seq::<char>::empty()]
                        + ls.skip(e),
                ) + seq!['\n'],
            )
        },
    }
}

/// Whether two character sequences are equal.
fn same_chars(a: &[char], b: &[char]) -> (r: bool)
    ensures
        r == (a@ == b@),
{
    if a.len() != b.len() {
        return false;
    }
    let r = text::has_prefix(a, b);
    proof {
        if r {
            assert(a@ =~= b@);
        }
        if a@ == b@ {
            assert(a@.take(b@.len() as int) =~= a@);
        }
    }
    r
}

/// Rewrites the `## unreleased` section of `changelog` to hold `bullets`;
/// refused when the changelog has no such heading.
pub fn update_unreleased(changelog: &str, bullets: &Vec<String>) -> (r: Result<String, TableError>)
    ensures
        match updated_changelog(changelog@, bullets.deep_view()) {
            Some(t) => r matches Ok(s) && s@ == t,
            None => r == Err::<String, TableError>(TableError::NoUnreleasedHeading),
        },
{
    let chars = text::chars_of(changelog);
    let lines = text::split_lines(chars.as_slice());
    let ghost ls = text::char_rows(lines@);
    let n = lines.len();
    let heading = text::chars_of("## unreleased");
    let mut i: usize = 0;
    while i < n
        invariant
            i <= n,
            n == lines@.len(),
            ls == text::char_rows(lines@),
            heading@ == unreleased_heading(),
            heading_index(ls, i as int) is None,
        ensures
            i <= n,
            heading_index(ls, i as int) is None,
            i < n ==> ls[i as int] == unreleased_heading(),
        decreases n - i,
    {
        if same_chars(lines[i].as_slice(), heading.as_slice()) {
            break;
        }
        i = i + 1;
    }
    if i == n {
        return Err(TableError::NoUnreleasedHeading);
    }
    assert(heading_index(ls, i + 1) == Some(i as int));
    proof {
        lemma_heading_index_stays(ls, i + 1, n as int);
    }
    let marker = text::chars_of("## ");
    let mut e: usize = i + 1;
    while e < n
        invariant
            i < e <= n,
            n == lines@.len(),
            ls == text::char_rows(lines@),
            marker@ == "## "@,
            next_section(ls, i + 1, e as int) is None,
        ensures
            i < e <= n,
            next_section(ls, i + 1, e as int) is None,
            e < n ==> is_section_heading(ls[e as int]),
        decreases n - e,
    {
        if text::has_prefix(lines[e].as_slice(), marker.as_slice()) {
            break;
        }
        e = e + 1;
    }
    proof {
        if e < n {
            assert(next_section(ls, i + 1, e + 1) == Some(e as int));
            lemma_next_section_stays(ls, i + 1, e + 1, n as int);
        }
    }
    let ghost all = ls.take(i + 1) + seq![Seq::<char>::empty()] + bullets.deep_view() + seq![
        Seq::<char>::empty(),
    ] + ls.skip(e as int);
    let mut parts: Vec<Vec<char>> = Vec::new();
    let mut k: usize = 0;
    while k <= i
        invariant
            k <= i + 1,
            i < n,
            n == lines@.len(),
            parts@.len() == k,
            forall|j: int| 0 <= j < k ==> #[trigger] parts@[j]@ == lines@[j]@,
        decreases i + 1 - k,
    {
        parts.push(lines[k].clone());
        k = k + 1;
    }
    parts.push(Vec::new());
    let mut b: usize = 0;
    while b < bullets.len()
        invariant
            b <= bullets@.len(),
            i < n,
            parts@.len() == i + 2 + b,
            forall|j: int| 0 <= j <= i ==> #[trigger] parts@[j]@ == lines@[j]@,
            parts@[i + 1]@ == Seq::<char>::empty(),
            forall|j: int| 0 <= j < b ==> #[trigger] parts@[i + 2 + j]@ == bullets@[j]@,
        decreases bullets.len() - b,
    {
        parts.push(text::chars_of(bullets[b].as_str()));
        b = b + 1;
    }
    parts.push(Vec::new());
    let nb = bullets.len();
    let mut m: usize = e;
    while m < n
        invariant
            e <= m <= n,
            i < n,
            nb == bullets@.len(),
            n == lines@.len(),
            parts@.len() == i + 3 + nb + (m - e),
            forall|j: int| 0 <= j <= i ==> #[trigger] parts@[j]@ == lines@[j]@,
            parts@[i + 1]@ == Seq::<char>::empty(),
            forall|j: int| 0 <= j < nb ==> #[trigger] parts@[i + 2 + j]@ == bullets@[j]@,
            parts@[i + 2 + nb]@ == Seq::<char>::empty(),
            forall|j: int| 0 <= j < m - e ==> #[trigger] parts@[i + 3 + nb + j]@ == lines@[e + j]@,
        decreases n - m,
    {
        parts.push(lines[m].clone());
        m = m + 1;
    }
    assert forall|j: int| 0 <= j < parts@.len() implies #[trigger] parts@[j]@ == all[j] by {
        if j <= i {
        } else if j == i + 1 {
        } else if j < i + 2 + nb {
            let q = j - i - 2;
            assert(parts@[i + 2 + q]@ == bullets@[q]@);
        } else if j == i + 2 + nb {
        } else {
            let q = j - i - 3 - nb;
            assert(parts@[i + 3 + nb + q]@ == lines@[e + q]@);
        }
    }
    assert(text::char_rows(parts@) =~= all);
    let mut out = String::new();
    let mut p: usize = 0;
    while p < parts.len()
        invariant
            p <= parts@.len(),
            text::char_rows(parts@) == all,
            out@ == text::join_lines(all.take(p as int)),
        decreases parts.len() - p,
    {
        assert(all.take(p + 1).drop_last() =~= all.take(p as int));
        assert(all.take(p + 1).last() == parts@[p as int]@);
        if p > 0 {
            out.push('\n');
        }
        text::push_chars(&mut out, parts[p].as_slice());
        p = p + 1;
        assert(out@ =~= text::join_lines(all.take(p as int)));
    }
    assert(all.take(parts@.len() as int) =~= all);
    out.push('\n');
    Ok(out)
}


/// What `heading_index` finds: the heading line, with none before it.
proof fn lemma_heading_index_found(ls: Seq<Seq<char>>, n: int)
    requires
        n <= ls.len(),
    ensures
        heading_index(ls, n) matches Some(i) ==> 0 <= i < n && ls[i] == unreleased_heading(),
        heading_index(ls, n) matches Some(i) ==> forall|k: int| 0 <= k < i ==> #[trigger] ls[k] != unreleased_heading(),
    decreases n,
{
    if n > 0 {
        lemma_heading_index_found(ls, n - 1);
        if heading_index(ls, n - 1) is None {
            lemma_heading_index_none(ls, n - 1);
        }
    }
}

/// When `heading_index` finds nothing, no line below `n` is the heading.
proof fn lemma_heading_index_none(ls: Seq<Seq<char>>, n: int)
    requires
        n <= ls.len(),
        heading_index(ls, n) is None,
    ensures
        forall|k: int| 0 <= k < n ==> #[trigger] ls[k] != unreleased_heading(),
    decreases n,
{
    if n > 0 {
        lemma_heading_index_none(ls, n - 1);
    }
}

/// `heading_index` below `n` looks at the first `n` lines only.
proof fn lemma_heading_index_prefix(a: Seq<Seq<char>>, b: Seq<Seq<char>>, n: int)
    requires
        n <= a.len(),
        n <= b.len(),
        forall|j: int| 0 <= j < n ==> #[trigger] a[j] == b[j],
    ensures
        heading_index(a, n) == heading_index(b, n),
    decreases n,
{
    if n > 0 {
        lemma_heading_index_prefix(a, b, n - 1);
    }
}

/// The first heading below `m` is also the first below any `n` past it.
proof fn lemma_heading_index_down(ls: Seq<Seq<char>>, m: int, n: int)
    requires
        heading_index(ls, m) matches Some(i) && i < n,
        n <= m,
    ensures
        heading_index(ls, n) == heading_index(ls, m),
    decreases m - n,
{
    if n < m {
        assert(heading_index(ls, m - 1) == heading_index(ls, m));
        lemma_heading_index_down(ls, m - 1, n);
    }
}

/// What `next_section` finds: a section heading, with none before it.
proof fn lemma_next_section_found(ls: Seq<Seq<char>>, lo: int, n: int)
    requires
        n <= ls.len(),
        0 <= lo,
    ensures
        next_section(ls, lo, n) matches Some(j) ==> lo <= j < n && is_section_heading(ls[j]),
        next_section(ls, lo, n) is None ==> forall|k: int| lo <= k < n ==> !is_section_heading(#[trigger] ls[k]),
    decreases n - lo,
{
    if n > lo {
        lemma_next_section_found(ls, lo, n - 1);
    }
}

/// No section opens in `lo..n` when none of those lines opens one.
proof fn lemma_next_section_none(ls: Seq<Seq<char>>, lo: int, n: int)
    requires
        forall|k: int| lo <= k < n ==> !is_section_heading(#[trigger] ls[k]),
    ensures
        next_section(ls, lo, n) is None,
    decreases n - lo,
{
    if n > lo {
        lemma_next_section_none(ls, lo, n - 1);
    }
}

/// Regenerating the unreleased section a second time with the same bullets
/// changes nothing, when no line of the changelog ends with a carriage return
/// and the bullets are single lines that open no section.
pub proof fn law_update_unreleased_idempotent(changelog: Seq<char>, bullets: Seq<Seq<char>>)
    requires
        updated_changelog(changelog, bullets) is Some,
        forall|k: int|
            0 <= k < text::lines_of(changelog).len() ==> text::plain_line(
                #[trigger] text::lines_of(changelog)[k],
            ),
        forall|k: int| 0 <= k < bullets.len() ==> text::plain_line(#[trigger] bullets[k]),
        forall|k: int| 0 <= k < bullets.len() ==> !is_section_heading(#[trigger] bullets[k]),
    ensures
        updated_changelog(updated_changelog(changelog, bullets)->Some_0, bullets) == updated_changelog(
            changelog,
            bullets,
        ),
{
    let ls = text::lines_of(changelog);
    let n = ls.len() as int;
    let i = heading_index(ls, n)->Some_0;
    lemma_heading_index_found(ls, n);
    lemma_next_section_found(ls, i + 1, n);
    let e = match next_section(ls, i + 1, n) {
        Some(j) => j,
        None => n,
    };
    let nb = bullets.len() as int;
    let blank = Seq::<char>::empty();
    let l2 = ls.take(i + 1) + seq![blank] + bullets + seq![blank] + ls.skip(e);
    let t = text::join_lines(l2) + seq!['\n'];
    assert(updated_changelog(changelog, bullets) == Some(t));
    // the new text splits back into the new lines
    assert forall|k: int| 0 <= k < l2.len() implies text::plain_line(#[trigger] l2[k]) by {
        if k <= i {
            assert(l2[k] == ls[k]);
        } else if k == i + 1 || k == i + 2 + nb {
        } else if k < i + 2 + nb {
            assert(l2[k] == bullets[k - i - 2]);
        } else {
            assert(l2[k] == ls[e + (k - i - 3 - nb)]);
        }
    }
    text::lemma_lines_of_join(l2);
    assert(text::lines_of(t) == l2);
    let m = l2.len() as int;
    // the heading is found at the same line
    assert forall|j: int| 0 <= j < i + 1 implies #[trigger] l2[j] == ls[j] by {}
    lemma_heading_index_prefix(l2, ls, i + 1);
    lemma_heading_index_down(ls, n, i + 1);
    lemma_heading_index_stays(l2, i + 1, m);
    assert(heading_index(l2, m) == Some(i));
    // the section ends where the old one ended
    assert forall|k: int| i + 1 <= k < i + 3 + nb implies !is_section_heading(#[trigger] l2[k]) by {
        if k == i + 1 || k == i + 2 + nb {
            reveal_strlit("## ");
            assert(l2[k] == blank);
        } else {
            assert(l2[k] == bullets[k - i - 2]);
        }
    }
    lemma_next_section_none(l2, i + 1, i + 3 + nb);
    let e2 = match next_section(l2, i + 1, m) {
        Some(j) => j,
        None => m,
    };
    if e < n {
        assert(l2[i + 3 + nb] == ls[e]);
        assert(next_section(l2, i + 1, i + 4 + nb) == Some(i + 3 + nb));
        lemma_next_section_stays(l2, i + 1, i + 4 + nb, m);
        assert(e2 == i + 3 + nb);
    } else {
        assert(m == i + 3 + nb);
        assert(e2 == m);
    }
    assert(l2.take(i + 1) =~= ls.take(i + 1));
    assert(l2.skip(e2) =~= ls.skip(e));
    let l3 = l2.take(i + 1) + seq![blank] + bullets + seq![blank] + l2.skip(e2);
    assert(l3 =~= l2);
}

} // verus!
