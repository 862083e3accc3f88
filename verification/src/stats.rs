//! Parsing of plain-text stats files: one `key value` pair per line,
//! space-separated, with a trailing newline.
//!
//! A backend reads such a file for one job's cgroup and projects exactly the
//! requested metrics, in request order; the file content arrives here as a
//! string and everything after that point is verified.  Mirroring the way
//! the engine consumes these files, the piece after the last newline is
//! ignored, a line without a space is an error, and when a key repeats its
//! last occurrence wins.

use vstd::prelude::*;

use crate::metric::Metric;
use crate::metric::strings_equal;
use vstd::string::StrSliceExecFns;
use vstd::string::StringExecFns;

verus! {

/// The position of the first `c` in `s`, or `s.len()` when there is none.
pub open spec fn first_index_of(s: Seq<char>, c: char) -> int
    decreases s.len(),
{
    if s.len() == 0 {
        0
    } else if s[0] == c {
        0
    } else {
        1 + first_index_of(s.drop_first(), c)
    }
}

pub proof fn lemma_first_index_of_props(s: Seq<char>, c: char)
    ensures
        0 <= first_index_of(s, c) <= s.len(),
        first_index_of(s, c) < s.len() ==> s[first_index_of(s, c)] == c,
        forall|x: int| 0 <= x < first_index_of(s, c) ==> s[x] != c,
    decreases s.len(),
{
    if s.len() > 0 && s[0] != c {
        lemma_first_index_of_props(s.drop_first(), c);
        assert forall|x: int| 0 <= x < first_index_of(s, c) implies s[x] != c by {
            if x > 0 {
                assert(s.drop_first()[x - 1] == s[x]);
            }
        }
    }
}

/// A scan that saw no `c` before `k`, and `c` (or the end) at `k`, found the
/// first occurrence.
pub proof fn lemma_first_index_of_at(s: Seq<char>, c: char, k: int)
    requires
        0 <= k <= s.len(),
        forall|x: int| 0 <= x < k ==> s[x] != c,
        k == s.len() || s[k] == c,
    ensures
        first_index_of(s, c) == k,
    decreases s.len(),
{
    if s.len() > 0 && k > 0 {
        assert(s[0] != c);
        lemma_first_index_of_at(s.drop_first(), c, k - 1);
    }
}

/// `first_index_of` never runs past the front of the string.
pub proof fn lemma_first_index_of_nonneg(s: Seq<char>, c: char)
    ensures
        first_index_of(s, c) >= 0,
    decreases s.len(),
{
    if s.len() > 0 && s[0] != c {
        lemma_first_index_of_nonneg(s.drop_first(), c);
    }
}

/// The `(key, value)` rows of a stats file: for each full (newline-ended)
/// line, the text before the first space and the text between the first and
/// the second space.  `None` when some full line has no space at all.
pub open spec fn stats_rows(s: Seq<char>) -> Option<Seq<(Seq<char>, Seq<char>)>>
    decreases s.len(),
    via stats_rows_decreases
{
    let nl = first_index_of(s, '\n');
    if nl >= s.len() {
        Some(Seq::empty())
    } else {
        let line = s.take(nl);
        let sp = first_index_of(line, ' ');
        if sp >= line.len() {
            None
        } else {
            let sp2 = sp + 1 + first_index_of(line.skip(sp + 1), ' ');
            match stats_rows(s.skip(nl + 1)) {
                None => None,
                Some(rest) => Some(seq![(line.take(sp), line.subrange(sp + 1, sp2))] + rest),
            }
        }
    }
}

#[via_fn]
proof fn stats_rows_decreases(s: Seq<char>) {
    lemma_first_index_of_nonneg(s, '\n');
}

/// The key of each full line, the whole line when it has no space.  Unlike
/// `stats_rows` this is total: listing the keys of a file never fails.
pub open spec fn stats_keys(s: Seq<char>) -> Seq<Seq<char>>
    decreases s.len(),
    via stats_keys_decreases
{
    let nl = first_index_of(s, '\n');
    if nl >= s.len() {
        Seq::empty()
    } else {
        let line = s.take(nl);
        let sp = first_index_of(line, ' ');
        seq![line.take(sp)] + stats_keys(s.skip(nl + 1))
    }
}

#[via_fn]
proof fn stats_keys_decreases(s: Seq<char>) {
    lemma_first_index_of_nonneg(s, '\n');
}

/// Prepending already-parsed rows to the rows still to be parsed.
pub open spec fn rows_then(prefix: Seq<(Seq<char>, Seq<char>)>, rest: Option<
    Seq<(Seq<char>, Seq<char>)>,
>) -> Option<Seq<(Seq<char>, Seq<char>)>> {
    match rest {
        None => None,
        Some(r) => Some(prefix + r),
    }
}

/// Split a stats file into its `(key, value)` rows; `None` exactly when a
/// full line has no space, which a caller treats as a malformed file.
pub fn parse_stats_rows(content: &str) -> (r: Option<Vec<(String, String)>>)
    ensures
        match stats_rows(content@) {
            None => r is None,
            Some(rows) => r is Some && r.unwrap().deep_view() == rows,
        },
{
    let n = content.unicode_len();
    let mut out: Vec<(String, String)> = Vec::new();
    let mut i: usize = 0;
    proof {
        assert(content@.skip(0) =~= content@);
        assert(out.deep_view() =~= Seq::<(Seq<char>, Seq<char>)>::empty());
        match stats_rows(content@) {
            None => {},
            Some(rows) => {
                assert(Seq::<(Seq<char>, Seq<char>)>::empty() + rows =~= rows);
            },
        }
    }
    while i < n
        invariant
            i <= n,
            n == content@.len(),
            stats_rows(content@) == rows_then(
                out.deep_view(),
                stats_rows(content@.skip(i as int)),
            ),
        decreases n - i,
    {
        let ghost tail = content@.skip(i as int);
        let mut j = i;
        while j < n && content.get_char(j) != '\n'
            invariant
                i <= j <= n,
                n == content@.len(),
                forall|x: int| i <= x < j ==> content@[x] != '\n',
            decreases n - j,
        {
            j += 1;
        }
        proof {
            assert forall|x: int| 0 <= x < j - i implies tail[x] != '\n' by {
                assert(tail[x] == content@[i + x]);
            }
            if j < n {
                assert(tail[j - i] == content@[j as int]);
            }
            lemma_first_index_of_at(tail, '\n', j - i);
        }
        if j == n {
            // The piece after the last newline is not a full line; ignore it.
            proof {
                assert(stats_rows(tail) == Some(Seq::<(Seq<char>, Seq<char>)>::empty()));
                assert(out.deep_view() + Seq::<(Seq<char>, Seq<char>)>::empty() =~= (
                out.deep_view()));
            }
            return Some(out);
        }
        let ghost line = tail.take(j - i);
        proof {
            assert(line =~= content@.subrange(i as int, j as int));
        }
        let mut k = i;
        while k < j && content.get_char(k) != ' '
            invariant
                i <= k <= j <= n,
                n == content@.len(),
                forall|x: int| i <= x < k ==> content@[x] != ' ',
            decreases j - k,
        {
            k += 1;
        }
        proof {
            assert forall|x: int| 0 <= x < k - i implies line[x] != ' ' by {
                assert(line[x] == content@[i + x]);
            }
            if k < j {
                assert(line[k - i] == content@[k as int]);
            }
            lemma_first_index_of_at(line, ' ', k - i);
        }
        if k == j {
            // A full line with no space: the file is malformed.
            proof {
                assert(stats_rows(tail) is None);
            }
            return None;
        }
        let mut l = k + 1;
        while l < j && content.get_char(l) != ' '
            invariant
                k < l <= j <= n,
                n == content@.len(),
                forall|x: int| k < x < l ==> content@[x] != ' ',
            decreases j - l,
        {
            l += 1;
        }
        proof {
            let vtail = line.skip(k - i + 1);
            assert forall|x: int| 0 <= x < l - k - 1 implies vtail[x] != ' ' by {
                assert(vtail[x] == content@[k + 1 + x]);
            }
            if l < j {
                assert(vtail[l - k - 1] == content@[l as int]);
            }
            lemma_first_index_of_at(vtail, ' ', l - k - 1);
        }
        let key = String::from_str(content.substring_char(i, k));
        let value = String::from_str(content.substring_char(k + 1, l));
        let ghost out0 = out.deep_view();
        proof {
            assert(key@ =~= line.take(k - i));
            assert(value@ =~= line.subrange(k - i + 1, k - i + 1 + (l - k - 1)));
        }
        out.push((key, value));
        proof {
            assert(out.deep_view() =~~= out0.push((line.take(k - i), line.subrange(
                k - i + 1,
                k - i + 1 + (l - k - 1),
            ))));
            assert(content@.skip(i as int).skip(j - i + 1) =~= content@.skip(j + 1));
            assert(stats_rows(tail) == rows_then(
                seq![(line.take(k - i), line.subrange(k - i + 1, k - i + 1 + (l - k - 1)))],
                stats_rows(content@.skip(j + 1)),
            ));
            match stats_rows(content@.skip(j + 1)) {
                None => {
                    assert(stats_rows(content@) is None);
                },
                Some(rest) => {
                    assert(out0.push(
                        (line.take(k - i), line.subrange(k - i + 1, k - i + 1 + (l - k - 1))),
                    ) + rest =~~= out0 + (seq![
                        (line.take(k - i), line.subrange(k - i + 1, k - i + 1 + (l - k - 1))),
                    ] + rest));
                },
            }
        }
        i = j + 1;
    }
    proof {
        assert(content@.skip(i as int) =~= Seq::<char>::empty());
        assert(stats_rows(content@.skip(i as int)) == Some(
            Seq::<(Seq<char>, Seq<char>)>::empty(),
        ));
        assert(out.deep_view() + Seq::<(Seq<char>, Seq<char>)>::empty() =~= out.deep_view());
    }
    Some(out)
}

/// The value text of the last row holding `name`, if any: when a key
/// repeats, the later line wins.
pub open spec fn rows_lookup(rows: Seq<(Seq<char>, Seq<char>)>, name: Seq<char>) -> Option<
    Seq<char>,
>
    decreases rows.len(),
{
    if rows.len() == 0 {
        None
    } else if rows.last().0 == name {
        Some(rows.last().1)
    } else {
        rows_lookup(rows.drop_last(), name)
    }
}

/// Whether `c` is an ASCII decimal digit.
pub open spec fn is_ascii_digit_char(c: char) -> bool {
    48 <= c as u32 <= 57
}

/// The value of a string of ASCII digits, most significant first.
pub open spec fn digits_value_chars(s: Seq<char>) -> int
    decreases s.len(),
{
    if s.len() == 0 {
        0
    } else {
        digits_value_chars(s.drop_last()) * 10 + (s.last() as u32 - 48)
    }
}

pub open spec fn all_ascii_digit_chars(s: Seq<char>) -> bool {
    forall|i: int| 0 <= i < s.len() ==> is_ascii_digit_char(#[trigger] s[i])
}

/// The integer a string denotes in decimal — an optional sign followed by
/// at least one digit — or `None` when it is not of that form.
pub open spec fn decimal_value_chars(s: Seq<char>) -> Option<int> {
    if s.len() > 0 && (s[0] == '-' || s[0] == '+') {
        if s.len() > 1 && all_ascii_digit_chars(s.drop_first()) {
            if s[0] == '-' {
                Some(-digits_value_chars(s.drop_first()))
            } else {
                Some(digits_value_chars(s.drop_first()))
            }
        } else {
            None
        }
    } else if s.len() > 0 && all_ascii_digit_chars(s) {
        Some(digits_value_chars(s))
    } else {
        None
    }
}

pub proof fn lemma_digits_chars_nonneg(s: Seq<char>)
    requires
        all_ascii_digit_chars(s),
    ensures
        digits_value_chars(s) >= 0,
    decreases s.len(),
{
    if s.len() > 0 {
        assert(all_ascii_digit_chars(s.drop_last()));
        lemma_digits_chars_nonneg(s.drop_last());
    }
}

/// A longer digit prefix never denotes a smaller value.
pub proof fn lemma_digits_chars_take_mono(s: Seq<char>, i: int, j: int)
    requires
        all_ascii_digit_chars(s),
        0 <= i <= j <= s.len(),
    ensures
        digits_value_chars(s.take(i)) <= digits_value_chars(s.take(j)),
    decreases j - i,
{
    if i < j {
        lemma_digits_chars_take_mono(s, i, j - 1);
        assert(s.take(j).drop_last() =~= s.take(j - 1));
        assert(all_ascii_digit_chars(s.take(j - 1)));
        lemma_digits_chars_nonneg(s.take(j - 1));
        assert(s.take(j).last() == s[j - 1]);
    }
}

/// Parse a whole string as a decimal 64-bit integer, as a stats-file value
/// is parsed: `Some` exactly when the text denotes an integer that fits.
pub fn parse_i64_str(s: &str) -> (r: Option<i64>)
    ensures
        match decimal_value_chars(s@) {
            Some(val) => (i64::MIN <= val <= i64::MAX ==> r == Some(val as i64)) && (!(i64::MIN
                <= val <= i64::MAX) ==> r is None),
            None => r is None,
        },
{
    let ghost text = s@;
    let n = s.unicode_len();
    if n == 0 {
        return None;
    }
    let first = s.get_char(0);
    let neg = first == '-';
    let skip: usize = if first == '-' || first == '+' {
        1
    } else {
        0
    };
    if skip == n {
        proof {
            if skip == 0 {
                assert(!is_ascii_digit_char(text[0]));
            }
        }
        return None;
    }
    let ghost digits = text.skip(skip as int);
    proof {
        if skip == 1 {
            assert(text.drop_first() =~= digits);
        } else {
            assert(text =~= digits);
        }
    }
    let mut acc: u128 = 0;
    let mut i = skip;
    while i < n
        invariant
            skip <= i <= n,
            skip < n,
            n == text.len(),
            text == s@,
            digits == text.skip(skip as int),
            skip == 0 || skip == 1,
            skip == 1 ==> (text[0] == '-' || text[0] == '+') && text.drop_first() == digits,
            skip == 0 ==> !(text[0] == '-' || text[0] == '+') && text == digits,
            neg == (text[0] == '-'),
            all_ascii_digit_chars(digits.take(i - skip)),
            acc == digits_value_chars(digits.take(i - skip)),
            acc <= 0x8000_0000_0000_0000,
        decreases n - i,
    {
        let c = s.get_char(i);
        let cv = c as u32;
        if cv < 48 || cv > 57 {
            proof {
                assert(digits[i - skip] == c);
                assert(!all_ascii_digit_chars(digits));
            }
            return None;
        }
        proof {
            assert(digits.take(i - skip + 1).drop_last() =~= digits.take((i - skip) as int));
            assert(digits.take(i - skip + 1).last() == c);
        }
        acc = acc * 10 + ((cv - 48) as u128);
        i += 1;
        if acc > 0x8000_0000_0000_0000 {
            proof {
                if all_ascii_digit_chars(digits) {
                    lemma_digits_chars_take_mono(digits, i - skip, digits.len() as int);
                    assert(digits.take(digits.len() as int) =~= digits);
                }
            }
            return None;
        }
    }
    proof {
        assert(digits.take((n - skip) as int) =~= digits);
    }
    if neg {
        if acc == 0x8000_0000_0000_0000 {
            Some(i64::MIN)
        } else {
            Some(-(acc as i64))
        }
    } else {
        if acc > 0x7fff_ffff_ffff_ffff {
            None
        } else {
            Some(acc as i64)
        }
    }
}

/// The parsed value of the last row holding `name`: `None` when the name is
/// absent or its value text is not a decimal integer.
pub open spec fn metric_value_of(rows: Seq<(Seq<char>, Seq<char>)>, name: Seq<char>) -> Option<
    int,
> {
    match rows_lookup(rows, name) {
        None => None,
        Some(text) => decimal_value_chars(text),
    }
}

/// Whether a looked-up value exists and fits a 64-bit integer.
pub open spec fn value_fits_i64(v: Option<int>) -> bool {
    match v {
        Some(x) => i64::MIN <= x <= i64::MAX,
        None => false,
    }
}

/// The value text of the last row holding `name`, scanning a parsed file.
fn lookup_row<'a>(rows: &'a Vec<(String, String)>, name: &String) -> (r: Option<&'a String>)
    ensures
        match r {
            Some(text) => rows_lookup(rows.deep_view(), name@) == Some(text@),
            None => rows_lookup(rows.deep_view(), name@) is None,
        },
{
    let ghost rs = rows.deep_view();
    let mut best: Option<usize> = None;
    let mut i: usize = 0;
    while i < rows.len()
        invariant
            i <= rows@.len(),
            rs == rows.deep_view(),
            rs.len() == rows@.len(),
            match best {
                Some(b) => b < i && rs[b as int].0 == name@ && rows_lookup(
                    rs.take(i as int),
                    name@,
                ) == Some(rs[b as int].1),
                None => rows_lookup(rs.take(i as int), name@) is None,
            },
        decreases rows@.len() - i,
    {
        proof {
            assert(rs[i as int] == rows@[i as int].deep_view());
            assert(rs.take(i as int + 1).drop_last() =~= rs.take(i as int));
            assert(rs.take(i as int + 1).last() == rs[i as int]);
        }
        if strings_equal(&rows[i].0, name) {
            best = Some(i);
        }
        i += 1;
    }
    proof {
        assert(rs.take(rs.len() as int) =~= rs);
    }
    match best {
        Some(b) => Some(&rows[b].1),
        None => None,
    }
}

/// Project the current values of the requested metrics out of a stats file,
/// in request order.  `None` when the file is malformed, a requested metric
/// is not in the file, or its value is not a decimal integer that fits —
/// all cases on which the engine cannot produce the requested bundle.
pub fn get_metric_values(content: &str, metrics_to_get: &Vec<Metric>) -> (r: Option<Vec<i64>>)
    ensures
        match stats_rows(content@) {
            None => r is None,
            Some(rows) => match r {
                Some(vals) => {
                    &&& vals@.len() == metrics_to_get.deep_view().len()
                    &&& forall|q: int|
                        0 <= q < vals@.len() ==> metric_value_of(
                            rows,
                            (#[trigger] metrics_to_get.deep_view()[q]).metric_name,
                        ) == Some(vals@[q] as int)
                },
                None => exists|q: int|
                    0 <= q < metrics_to_get.deep_view().len() && !value_fits_i64(
                        metric_value_of(
                            rows,
                            (#[trigger] metrics_to_get.deep_view()[q]).metric_name,
                        ),
                    ),
            },
        },
{
    let rows = match parse_stats_rows(content) {
        None => {
            return None;
        },
        Some(rows) => rows,
    };
    let ghost rs = rows.deep_view();
    let mut res: Vec<i64> = Vec::new();
    let mut i: usize = 0;
    while i < metrics_to_get.len()
        invariant
            i <= metrics_to_get@.len(),
            rs == rows.deep_view(),
            stats_rows(content@) == Some(rs),
            res@.len() == i,
            forall|q: int|
                0 <= q < i ==> metric_value_of(
                    rs,
                    (#[trigger] metrics_to_get.deep_view()[q]).metric_name,
                ) == Some(res@[q] as int),
        decreases metrics_to_get@.len() - i,
    {
        proof {
            assert(metrics_to_get.deep_view()[i as int] == metrics_to_get@[i as int].deep_view());
        }
        let value_text = match lookup_row(&rows, &metrics_to_get[i].metric_name) {
            None => {
                return None;
            },
            Some(t) => t,
        };
        let value = match parse_i64_str(value_text.as_str()) {
            None => {
                return None;
            },
            Some(v) => v,
        };
        res.push(value);
        i += 1;
    }
    Some(res)
}

/// List every key of a stats file, in file order — the way a backend learns
/// which metrics a freshly appeared cgroup offers.
pub fn get_metric_names(content: &str) -> (r: Vec<String>)
    ensures
        r.deep_view() == stats_keys(content@),
{
    let n = content.unicode_len();
    let mut out: Vec<String> = Vec::new();
    let mut i: usize = 0;
    proof {
        assert(content@.skip(0) =~= content@);
        assert(out.deep_view() =~= Seq::<Seq<char>>::empty());
        assert(Seq::<Seq<char>>::empty() + stats_keys(content@) =~= stats_keys(content@));
    }
    while i < n
        invariant
            i <= n,
            n == content@.len(),
            stats_keys(content@) == out.deep_view() + stats_keys(content@.skip(i as int)),
        decreases n - i,
    {
        let ghost tail = content@.skip(i as int);
        let mut j = i;
        while j < n && content.get_char(j) != '\n'
            invariant
                i <= j <= n,
                n == content@.len(),
                forall|x: int| i <= x < j ==> content@[x] != '\n',
            decreases n - j,
        {
            j += 1;
        }
        proof {
            assert forall|x: int| 0 <= x < j - i implies tail[x] != '\n' by {
                assert(tail[x] == content@[i + x]);
            }
            if j < n {
                assert(tail[j - i] == content@[j as int]);
            }
            lemma_first_index_of_at(tail, '\n', j - i);
        }
        if j == n {
            proof {
                assert(stats_keys(tail) =~= Seq::<Seq<char>>::empty());
                assert(out.deep_view() + Seq::<Seq<char>>::empty() =~= out.deep_view());
            }
            return out;
        }
        let ghost line = tail.take(j - i);
        proof {
            assert(line =~= content@.subrange(i as int, j as int));
        }
        let mut k = i;
        while k < j && content.get_char(k) != ' '
            invariant
                i <= k <= j <= n,
                n == content@.len(),
                forall|x: int| i <= x < k ==> content@[x] != ' ',
            decreases j - k,
        {
            k += 1;
        }
        proof {
            assert forall|x: int| 0 <= x < k - i implies line[x] != ' ' by {
                assert(line[x] == content@[i + x]);
            }
            if k < j {
                assert(line[k - i] == content@[k as int]);
            }
            lemma_first_index_of_at(line, ' ', k - i);
        }
        let key = String::from_str(content.substring_char(i, k));
        let ghost out0 = out.deep_view();
        proof {
            assert(key@ =~= line.take(k - i));
        }
        out.push(key);
        proof {
            assert(out.deep_view() =~~= out0.push(line.take(k - i)));
            assert(content@.skip(i as int).skip(j - i + 1) =~= content@.skip(j + 1));
            assert(stats_keys(tail) == seq![line.take(k - i)] + stats_keys(content@.skip(j + 1)));
            assert(out0.push(line.take(k - i)) + stats_keys(content@.skip(j + 1)) =~~= out0 + (
            seq![line.take(k - i)] + stats_keys(content@.skip(j + 1))));
        }
        i = j + 1;
    }
    proof {
        assert(content@.skip(i as int) =~= Seq::<char>::empty());
        assert(stats_keys(content@.skip(i as int)) =~= Seq::<Seq<char>>::empty());
        assert(out.deep_view() + Seq::<Seq<char>>::empty() =~= out.deep_view());
    }
    out
}

} // verus!
