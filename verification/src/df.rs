//! Parsing the disk enumeration.
//!
//! The disk reconciler is the one reconciler fed by an OS utility rather
//! than a structured source: the utility prints one header line and then one
//! row per mounted file system — device, file-system type, size, used,
//! available, use fraction, and mount point, each column ending in a unit
//! letter where it is a size. Rows whose device path is not rooted (they do
//! not start with `/`) are virtual file systems and are skipped. A row that
//! is rooted but does not fit the column grammar is a topology inconsistency
//! and fails the whole parse, matching the pass-is-fatal error policy.

use vstd::prelude::*;

use crate::disk::{DiskMetrics, DiskMetricsView};
use crate::seq_util::{keep, lemma_keep_push};

verus! {

/// Index of the first occurrence of `sep`, or the length when absent.
pub open spec fn find_char(s: Seq<char>, sep: char) -> int
    decreases s.len(),
{
    if s.len() == 0 {
        0
    } else if s[0] == sep {
        0
    } else {
        1 + find_char(s.drop_first(), sep)
    }
}

/// `find_char` points at the first separator: it is bounded by the length,
/// everything before it differs from `sep`, and it differs only when it is
/// within bounds.
pub proof fn lemma_find_char(s: Seq<char>, sep: char, j: int)
    requires
        0 <= j <= s.len(),
        forall|k: int| 0 <= k < j ==> s[k] != sep,
        j < s.len() ==> s[j] == sep,
    ensures
        find_char(s, sep) == j,
    decreases j,
{
    if j == 0 {
        if s.len() > 0 {
            assert(s[0] == sep);
        }
    } else {
        assert(s[0] != sep);
        let st = s.drop_first();
        assert(forall|k: int| 0 <= k < st.len() ==> st[k] == s[k + 1]);
        lemma_find_char(st, sep, j - 1);
    }
}

/// The pieces of `s` between occurrences of `sep`, in order; `n + 1` pieces
/// for `n` separators, empty pieces included.
pub open spec fn split_on(s: Seq<char>, sep: char) -> Seq<Seq<char>>
    decreases s.len(),
{
    let i = find_char(s, sep);
    if i < 0 || i >= s.len() {
        seq![s]
    } else {
        seq![s.take(i)] + split_on(s.skip(i + 1), sep)
    }
}

/// The lines of a text: split on the newline, without the empty piece a
/// trailing newline leaves.
pub open spec fn lines_of(s: Seq<char>) -> Seq<Seq<char>> {
    let parts = split_on(s, '\n');
    if parts.len() > 0 && parts.last().len() == 0 {
        parts.drop_last()
    } else {
        parts
    }
}

/// The whitespace-separated fields of a line.
pub open spec fn fields_of(line: Seq<char>) -> Seq<Seq<char>> {
    keep(split_on(line, ' '), |f: Seq<char>| f.len() != 0)
}

/// A decimal digit.
pub open spec fn is_digit(c: char) -> bool {
    '0' <= c && c <= '9'
}

/// The value of a digit string read in base ten.
pub open spec fn dec_val(s: Seq<char>) -> int
    decreases s.len(),
{
    if s.len() == 0 {
        0
    } else {
        dec_val(s.drop_last()) * 10 + (s.last() as int - '0' as int)
    }
}

/// A non-empty, all-digits string.
pub open spec fn is_dec(s: Seq<char>) -> bool {
    s.len() > 0 && forall|i: int| 0 <= i < s.len() ==> is_digit(#[trigger] s[i])
}

/// How many leading characters of `s` are decimal digits.
pub open spec fn digit_prefix_len(s: Seq<char>) -> int
    decreases s.len(),
{
    if s.len() == 0 || !is_digit(s[0]) {
        0
    } else {
        1 + digit_prefix_len(s.drop_first())
    }
}

/// `digit_prefix_len` points at the first non-digit: everything before it is
/// a digit, and it is only short of the length where a non-digit follows.
pub proof fn lemma_digit_prefix_len(s: Seq<char>, j: int)
    requires
        0 <= j <= s.len(),
        forall|k: int| 0 <= k < j ==> is_digit(#[trigger] s[k]),
        j < s.len() ==> !is_digit(s[j]),
    ensures
        digit_prefix_len(s) == j,
    decreases j,
{
    if j == 0 {
    } else {
        assert(is_digit(s[0]));
        let st = s.drop_first();
        assert(forall|k: int| 0 <= k < st.len() ==> st[k] == s[k + 1]);
        lemma_digit_prefix_len(st, j - 1);
    }
}

/// The leading digits grow the prefix.
pub proof fn lemma_digit_prefix_len_at_least(s: Seq<char>, j: int)
    requires
        0 <= j <= s.len(),
        forall|k: int| 0 <= k < j ==> is_digit(#[trigger] s[k]),
    ensures
        j <= digit_prefix_len(s) <= s.len(),
        forall|k: int| 0 <= k < digit_prefix_len(s) ==> is_digit(#[trigger] s[k]),
    decreases s.len(),
{
    if s.len() > 0 && is_digit(s[0]) {
        let st = s.drop_first();
        assert(forall|k: int| 0 <= k < st.len() ==> st[k] == s[k + 1]);
        lemma_digit_prefix_len_at_least(st, if j > 0 {
            j - 1
        } else {
            0
        });
        assert forall|k: int| 0 <= k < digit_prefix_len(s) implies is_digit(#[trigger] s[k]) by {
            if k > 0 {
                assert(is_digit(st[k - 1]));
            }
        }
    }
}

/// The value of a field's leading digit run, read in base ten: `None` when
/// the field does not start with a digit or the figure overflows the column.
pub open spec fn u32_prefix_of(s: Seq<char>) -> Option<u32> {
    let d = digit_prefix_len(s);
    if d == 0 || dec_val(s.take(d)) > u32::MAX as int {
        None
    } else {
        Some(dec_val(s.take(d)) as u32)
    }
}

/// Reads the leading decimal digits of a figure such as a cache size that a
/// unit word follows. Mirrors [`u32_prefix_of`].
pub fn parse_u32_prefix(f: &str) -> (r: Option<u32>)
    ensures
        r == u32_prefix_of(f@),
{
    let n = f.unicode_len();
    let mut val: u64 = 0;
    let mut i: usize = 0;
    proof {
        assert(f@.take(0) =~= Seq::<char>::empty());
    }
    while i < n
        invariant
            i <= n == f@.len(),
            forall|k: int| 0 <= k < i ==> is_digit(#[trigger] f@[k]),
            val == dec_val(f@.take(i as int)),
            val <= u32::MAX as u64,
        decreases n - i,
    {
        let c = f.get_char(i);
        if c < '0' || c > '9' {
            proof {
                lemma_digit_prefix_len(f@, i as int);
            }
            if i == 0 {
                return None;
            }
            return Some(val as u32);
        }
        let d: u64 = (c as u32 - '0' as u32) as u64;
        proof {
            assert(f@.take(i as int + 1).drop_last() =~= f@.take(i as int));
            assert(f@.take(i as int + 1).last() == f@[i as int]);
        }
        let next = val * 10 + d;
        if next > u32::MAX as u64 {
            proof {
                assert(is_digit(f@[i as int]));
                lemma_digit_prefix_len_at_least(f@, i as int + 1);
                let dl = digit_prefix_len(f@);
                assert forall|k: int| 0 <= k < f@.take(dl).len() implies is_digit(
                    #[trigger] f@.take(dl)[k],
                ) by {
                    assert(f@.take(dl)[k] == f@[k]);
                    assert(is_digit(f@[k]));
                }
                lemma_dec_val_bounds(f@.take(dl), i as int + 1);
                assert(f@.take(dl).take(i as int + 1) =~= f@.take(i as int + 1));
                assert(dec_val(f@.take(dl)) > u32::MAX as int);
            }
            return None;
        }
        val = next;
        i += 1;
    }
    proof {
        lemma_digit_prefix_len(f@, n as int);
    }
    if n == 0 {
        return None;
    }
    Some(val as u32)
}

/// A size column: decimal digits, then the unit letter for MB. Absent,
/// empty, unit-less, non-numeric or out-of-range figures are malformed — the
/// figures must be exact integer MB.
pub open spec fn parse_mb(f: Seq<char>) -> Option<u32> {
    if f.len() >= 1 && f.last() == 'M' && is_dec(f.drop_last()) && dec_val(f.drop_last())
        <= u32::MAX as int {
        Some(dec_val(f.drop_last()) as u32)
    } else {
        None
    }
}

/// One row: `None` for a malformed row, `Some(None)` for a skipped virtual
/// file system, `Some(Some(d))` for a parsed disk. Column order: device,
/// file-system type, size, used, available, use fraction, mount point.
pub open spec fn parse_df_line(line: Seq<char>) -> Option<Option<DiskMetricsView>> {
    let fields = fields_of(line);
    if fields.len() == 0 {
        None
    } else if fields[0].len() == 0 || fields[0][0] != '/' {
        Some(None)
    } else if fields.len() < 7 {
        None
    } else {
        match (parse_mb(fields[3]), parse_mb(fields[4])) {
            (Some(used), Some(available)) => Some(
                Some(
                    DiskMetricsView {
                        name: fields[0],
                        mount: fields[6],
                        file_system_type: fields[1],
                        used: used,
                        available: available,
                    },
                ),
            ),
            _ => None,
        }
    }
}

/// Every data row in order: `None` as soon as one row is malformed.
pub open spec fn parse_rows(lines: Seq<Seq<char>>) -> Option<Seq<DiskMetricsView>>
    decreases lines.len(),
{
    if lines.len() == 0 {
        Some(Seq::empty())
    } else {
        match parse_df_line(lines[0]) {
            None => None,
            Some(head) => match parse_rows(lines.drop_first()) {
                None => None,
                Some(rest) => Some(
                    match head {
                        Some(d) => seq![d] + rest,
                        None => rest,
                    },
                ),
            },
        }
    }
}

/// The whole utility output: the header line is dropped, the rest parsed.
pub open spec fn parse_disks(s: Seq<char>) -> Option<Seq<DiskMetricsView>> {
    let lines = lines_of(s);
    if lines.len() == 0 {
        Some(Seq::empty())
    } else {
        parse_rows(lines.drop_first())
    }
}

/// A digit string's value only grows as digits are appended.
proof fn lemma_dec_val_bounds(s: Seq<char>, i: int)
    requires
        0 <= i <= s.len(),
        forall|k: int| 0 <= k < s.len() ==> is_digit(#[trigger] s[k]),
    ensures
        dec_val(s.take(i)) >= 0,
        dec_val(s.take(i)) <= dec_val(s),
    decreases s.len() - i,
{
    if i == s.len() {
        assert(s.take(i) =~= s);
        lemma_dec_val_nonneg(s);
    } else {
        lemma_dec_val_bounds(s, i + 1);
        let t = s.take(i + 1);
        assert(t.drop_last() =~= s.take(i));
        assert(t.last() == s[i]);
        assert(is_digit(s[i]));
        lemma_dec_val_nonneg(s.take(i));
        assert(dec_val(s.take(i)) <= dec_val(s.take(i)) * 10 + (s[i] as int - '0' as int));
    }
}

/// The value of a digit string is never negative.
proof fn lemma_dec_val_nonneg(s: Seq<char>)
    requires
        forall|k: int| 0 <= k < s.len() ==> is_digit(#[trigger] s[k]),
    ensures
        dec_val(s) >= 0,
    decreases s.len(),
{
    if s.len() > 0 {
        assert(forall|k: int| 0 <= k < s.len() - 1 ==> s.drop_last()[k] == #[trigger] s[k]);
        lemma_dec_val_nonneg(s.drop_last());
        assert(is_digit(s[s.len() - 1]));
    }
}

/// Reads a size column. Mirrors [`parse_mb`].
fn parse_mb_field(f: &str) -> (r: Option<u32>)
    ensures
        r == parse_mb(f@),
{
    let n = f.unicode_len();
    if n < 2 {
        // the unit letter and at least one digit are needed
        if n == 1 {
            proof {
                assert(f@.drop_last() =~= Seq::<char>::empty());
                assert(!is_dec(f@.drop_last()));
            }
        }
        return None;
    }
    if f.get_char(n - 1) != 'M' {
        proof {
            assert(f@.last() != 'M');
        }
        return None;
    }
    let ghost digits = f@.drop_last();
    let mut val: u64 = 0;
    let mut i: usize = 0;
    proof {
        assert(digits.take(0) =~= Seq::<char>::empty());
    }
    while i < n - 1
        invariant
            2 <= n == f@.len(),
            i <= n - 1,
            digits == f@.drop_last(),
            digits.len() == n - 1,
            forall|k: int| 0 <= k < i ==> is_digit(#[trigger] digits[k]),
            val == dec_val(digits.take(i as int)),
            val <= u32::MAX as u64,
        decreases n - 1 - i,
    {
        let c = f.get_char(i);
        proof {
            assert(digits[i as int] == f@[i as int]);
        }
        if c < '0' || c > '9' {
            proof {
                assert(!is_digit(digits[i as int]));
                assert(!is_dec(f@.drop_last()));
            }
            return None;
        }
        let d: u64 = (c as u32 - '0' as u32) as u64;
        proof {
            assert(digits.take(i as int + 1).drop_last() =~= digits.take(i as int));
            assert(digits.take(i as int + 1).last() == digits[i as int]);
        }
        let next = val * 10 + d;
        if next > u32::MAX as u64 {
            proof {
                // the value of the whole digit string can only be larger
                if is_dec(digits) && dec_val(digits) <= u32::MAX as int {
                    lemma_dec_val_bounds(digits, i as int + 1);
                    assert(dec_val(digits.take(i as int + 1)) <= dec_val(digits));
                    assert(false);
                }
            }
            return None;
        }
        val = next;
        i += 1;
    }
    proof {
        assert(digits.take(digits.len() as int) =~= digits);
        assert(is_dec(digits));
        assert(dec_val(digits) == val as int);
    }
    Some(val as u32)
}

/// Splits on a separator; `n + 1` pieces for `n` separators. Mirrors
/// [`split_on`].
fn split_str(s: &str, sep: char) -> (r: Vec<String>)
    ensures
        r.deep_view() == split_on(s@, sep),
{
    let n = s.unicode_len();
    let mut out: Vec<String> = Vec::new();
    let mut start: usize = 0;
    let mut i: usize = 0;
    proof {
        assert(s@.skip(0) =~= s@);
    }
    while i < n
        invariant
            start <= i <= n,
            n == s@.len(),
            forall|k: int| start <= k < i ==> s@[k] != sep,
            out.deep_view() + split_on(s@.skip(start as int), sep) =~= split_on(s@, sep),
        decreases n - i,
    {
        let c = s.get_char(i);
        if c == sep {
            let piece = s.substring_char(start, i);
            let ghost rest = s@.skip(start as int);
            proof {
                assert(forall|k: int| 0 <= k < rest.len() ==> rest[k] == s@[start + k]);
                lemma_find_char(rest, sep, i - start as int);
                assert(rest.take(i - start as int) =~= s@.subrange(start as int, i as int));
                assert(rest.skip(i - start as int + 1) =~= s@.skip(i as int + 1));
            }
            let ghost out0 = out.deep_view();
            out.push(piece.to_owned());
            proof {
                assert(out.deep_view() =~= out0.push(s@.subrange(start as int, i as int)));
                assert(split_on(rest, sep) == seq![rest.take(i - start as int)] + split_on(
                    rest.skip(i - start as int + 1),
                    sep,
                ));
                assert(out0.push(s@.subrange(start as int, i as int)) + split_on(
                    s@.skip(i as int + 1),
                    sep,
                ) =~= out0 + split_on(rest, sep));
            }
            start = i + 1;
        }
        i += 1;
    }
    let piece = s.substring_char(start, n);
    let ghost rest = s@.skip(start as int);
    proof {
        assert(forall|k: int| 0 <= k < rest.len() ==> rest[k] == s@[start + k]);
        lemma_find_char(rest, sep, n - start as int);
        assert(split_on(rest, sep) == seq![rest]);
        assert(rest =~= s@.subrange(start as int, n as int));
    }
    let ghost out0 = out.deep_view();
    out.push(piece.to_owned());
    proof {
        assert(out.deep_view() =~= out0.push(rest));
        assert(out0.push(rest) =~= out0 + seq![rest]);
        assert(out.deep_view() =~= split_on(s@, sep));
    }
    out
}

/// The whitespace-separated fields of a line. Mirrors [`fields_of`].
fn fields_of_line(line: &str) -> (r: Vec<String>)
    ensures
        r.deep_view() == fields_of(line@),
{
    let parts = split_str(line, ' ');
    let ghost pred = |f: Seq<char>| f.len() != 0;
    let mut out: Vec<String> = Vec::new();
    let mut i: usize = 0;
    proof {
        assert(parts.deep_view().take(0) =~= Seq::<Seq<char>>::empty());
    }
    while i < parts.len()
        invariant
            i <= parts@.len(),
            parts.deep_view().len() == parts@.len(),
            parts.deep_view() == split_on(line@, ' '),
            pred == (|f: Seq<char>| f.len() != 0),
            out.deep_view() =~= keep(parts.deep_view().take(i as int), pred),
        decreases parts@.len() - i,
    {
        let ghost taken = parts.deep_view().take(i as int);
        proof {
            assert(parts.deep_view()[i as int] == parts@[i as int]@);
            assert(parts.deep_view().take(i as int + 1) =~= taken.push(
                parts.deep_view()[i as int],
            ));
            lemma_keep_push(taken, pred, parts.deep_view()[i as int]);
        }
        let ghost out0 = out.deep_view();
        if !parts[i].as_str().is_empty() {
            out.push(parts[i].clone());
            proof {
                assert(out.deep_view() =~= out0.push(parts.deep_view()[i as int]));
            }
        }
        i += 1;
    }
    proof {
        assert(parts.deep_view().take(parts@.len() as int) =~= parts.deep_view());
    }
    out
}

/// Reads one data row. Mirrors [`parse_df_line`].
fn parse_line(line: &str) -> (r: Option<Option<DiskMetrics>>)
    ensures
        match r {
            None => parse_df_line(line@) is None,
            Some(None) => parse_df_line(line@) == Some(None::<DiskMetricsView>),
            Some(Some(d)) => parse_df_line(line@) == Some(Some(d@)),
        },
{
    let fields = fields_of_line(line);
    let ghost fdv = fields.deep_view();
    proof {
        assert(fdv == fields_of(line@));
    }
    if fields.len() == 0 {
        return None;
    }
    proof {
        assert(fdv[0] == fields@[0]@);
    }
    if fields[0].as_str().is_empty() {
        return Some(None);
    }
    if fields[0].as_str().get_char(0) != '/' {
        return Some(None);
    }
    if fields.len() < 7 {
        return None;
    }
    proof {
        assert(fdv[1] == fields@[1]@);
        assert(fdv[3] == fields@[3]@);
        assert(fdv[4] == fields@[4]@);
        assert(fdv[6] == fields@[6]@);
    }
    let used = match parse_mb_field(fields[3].as_str()) {
        Some(u) => u,
        None => {
            return None;
        },
    };
    let available = match parse_mb_field(fields[4].as_str()) {
        Some(a) => a,
        None => {
            return None;
        },
    };
    Some(
        Some(
            DiskMetrics {
                name: fields[0].clone(),
                mount: fields[6].clone(),
                file_system_type: fields[1].clone(),
                used,
                available,
            },
        ),
    )
}

/// Parses the utility's whole output into the live disk enumeration: the
/// header line is dropped, virtual file systems are skipped, and any
/// malformed data row fails the parse, as [`parse_disks`] states.
pub fn parse_disk_data(output: &str) -> (r: Option<Vec<DiskMetrics>>)
    ensures
        match r {
            Some(v) => parse_disks(output@) == Some(v.deep_view()),
            None => parse_disks(output@) is None,
        },
{
    let mut lines = split_str(output, '\n');
    proof {
        assert(lines.deep_view().len() == lines@.len());
    }
    if lines.len() > 0 {
        proof {
            assert(lines.deep_view()[lines@.len() - 1] == lines@[lines@.len() - 1]@);
        }
        if lines[lines.len() - 1].as_str().is_empty() {
            let ghost before = lines.deep_view();
            lines.pop();
            proof {
                assert(lines.deep_view() =~= before.drop_last());
            }
        }
    }
    proof {
        assert(lines.deep_view() == lines_of(output@));
    }
    let ghost ldv = lines.deep_view();
    if lines.len() == 0 {
        let empty: Vec<DiskMetrics> = Vec::new();
        proof {
            assert(empty.deep_view() =~= Seq::<DiskMetricsView>::empty());
        }
        return Some(empty);
    }

    let mut out: Vec<DiskMetrics> = Vec::new();
    let mut k: usize = 1;
    proof {
        assert(ldv.skip(1) =~= ldv.drop_first());
    }
    while k < lines.len()
        invariant
            1 <= k <= ldv.len(),
            ldv == lines.deep_view(),
            ldv == lines_of(output@),
            ldv.len() == lines@.len(),
            parse_rows(ldv.drop_first()) == match parse_rows(ldv.skip(k as int)) {
                Some(rest) => Some(out.deep_view() + rest),
                None => None::<Seq<DiskMetricsView>>,
            },
        decreases ldv.len() - k,
    {
        let ghost ls = ldv.skip(k as int);
        proof {
            assert(ldv[k as int] == lines@[k as int]@);
            assert(ls[0] == ldv[k as int]);
            assert(ls.drop_first() =~= ldv.skip(k as int + 1));
        }
        let ghost out0 = out.deep_view();
        match parse_line(lines[k].as_str()) {
            None => {
                proof {
                    assert(parse_rows(ls) is None);
                }
                return None;
            },
            Some(None) => {
                proof {
                    assert(parse_rows(ls) == match parse_rows(ls.drop_first()) {
                        Some(rest) => Some(rest),
                        None => None::<Seq<DiskMetricsView>>,
                    });
                }
            },
            Some(Some(d)) => {
                out.push(d);
                proof {
                    assert(out.deep_view() =~= out0.push(out.deep_view().last()));
                    assert(parse_rows(ls) == match parse_rows(ls.drop_first()) {
                        Some(rest) => Some(seq![out.deep_view().last()] + rest),
                        None => None::<Seq<DiskMetricsView>>,
                    });
                    if parse_rows(ls.drop_first()) is Some {
                        let rest = parse_rows(ls.drop_first()).unwrap();
                        assert(out0 + (seq![out.deep_view().last()] + rest) =~= out.deep_view()
                            + rest);
                    }
                }
            },
        }
        k += 1;
    }
    proof {
        assert(ldv.skip(ldv.len() as int).len() == 0);
        assert(parse_rows(ldv.skip(ldv.len() as int)) == Some(Seq::<DiskMetricsView>::empty()));
        assert(out.deep_view() + Seq::<DiskMetricsView>::empty() =~= out.deep_view());
    }
    Some(out)
}

} // verus!
