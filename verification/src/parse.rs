//! Parsing of the subscription specification string.
//!
//! The configuration input (and every reconfiguration message) carries a
//! comma-separated list of entries, each either a bare metric name or
//! `name:period:job_id`.  An omitted period or job id stands for "use the
//! base period" and "all jobs".  The period is in seconds and may carry a
//! fraction; it is held as whole milliseconds, truncating toward zero.  A
//! malformed entry — wrong field count, or a field that is not a number —
//! invalidates the entire specification: configuration errors are rejected,
//! never guessed at.

use vstd::prelude::*;

use crate::metric::Metric;
use crate::metric::MetricModel;
use crate::stats::all_ascii_digit_chars;
use crate::stats::digits_value_chars;
use crate::stats::first_index_of;
use crate::stats::lemma_digits_chars_take_mono;
use crate::stats::lemma_first_index_of_at;
use crate::stats::lemma_first_index_of_nonneg;
use crate::stats::lemma_first_index_of_props;
use vstd::string::StrSliceExecFns;
use vstd::string::StringExecFns;

verus! {

/// The digit of `frac` at position `i`, taking absent positions as zero.
pub open spec fn frac_digit(frac: Seq<char>, i: int) -> int {
    if 0 <= i < frac.len() {
        frac[i] as u32 - 48
    } else {
        0
    }
}

/// The whole milliseconds a fraction of a second contributes: its first
/// three digits, zero-padded.
pub open spec fn frac_ms(frac: Seq<char>) -> int {
    frac_digit(frac, 0) * 100 + frac_digit(frac, 1) * 10 + frac_digit(frac, 2)
}

/// The whole milliseconds a decimal seconds string denotes — an optional
/// sign, digits, and an optional dot-led fraction, truncated toward zero —
/// or `None` when the string is not of that form.
pub open spec fn seconds_text_ms(s: Seq<char>) -> Option<int> {
    if s.len() == 0 {
        None
    } else {
        let body = if s[0] == '-' || s[0] == '+' {
            s.drop_first()
        } else {
            s
        };
        let neg = s[0] == '-';
        if body.len() == 0 {
            None
        } else {
            let dot = first_index_of(body, '.');
            let ip = body.take(dot);
            let fp = if dot < body.len() {
                body.skip(dot + 1)
            } else {
                Seq::empty()
            };
            if !all_ascii_digit_chars(ip) || !all_ascii_digit_chars(fp) || (ip.len() == 0
                && fp.len() == 0) {
                None
            } else {
                let ms = digits_value_chars(ip) * 1000 + frac_ms(fp);
                Some(
                    if neg {
                        -ms
                    } else {
                        ms
                    },
                )
            }
        }
    }
}

/// A fraction of digits contributes between 0 and 999 milliseconds.
pub proof fn lemma_frac_ms_bounds(fp: Seq<char>)
    requires
        all_ascii_digit_chars(fp),
    ensures
        0 <= frac_ms(fp) <= 999,
{
    assert(0 <= frac_digit(fp, 0) <= 9);
    assert(0 <= frac_digit(fp, 1) <= 9);
    assert(0 <= frac_digit(fp, 2) <= 9);
}

/// Parse a decimal seconds string into whole milliseconds, truncating
/// toward zero: `Some` exactly when the text is a decimal number whose
/// millisecond count fits a 64-bit integer.
pub fn parse_seconds_ms(s: &str) -> (r: Option<i64>)
    ensures
        match seconds_text_ms(s@) {
            Some(val) => (i64::MIN <= val <= i64::MAX ==> r == Some(val as i64)) && (!(i64::MIN
                <= val <= i64::MAX) ==> r is None),
            None => r is None,
        },
{
    let ghost text = s@;
    let n = s.unicode_len();
    if n == 0 {
        return None;
    }
    let first = s.get_char(0);
    let neg = first == '-';
    let skip: usize = if first == '-' || first == '+' {
        1
    } else {
        0
    };
    if skip == n {
        return None;
    }
    let ghost body = text.skip(skip as int);
    proof {
        if skip == 1 {
            assert(text.drop_first() =~= body);
        } else {
            assert(text =~= body);
        }
    }
    // The integer part: digits up to a dot or the end.
    let mut acc: u128 = 0;
    let mut i = skip;
    while i < n && s.get_char(i) != '.'
        invariant
            skip <= i <= n,
            skip < n,
            n == text.len(),
            text == s@,
            body == text.skip(skip as int),
            skip == 0 || skip == 1,
            skip == 1 ==> (text[0] == '-' || text[0] == '+') && text.drop_first() == body,
            skip == 0 ==> !(text[0] == '-' || text[0] == '+') && text == body,
            neg == (text[0] == '-'),
            forall|x: int| 0 <= x < i - skip ==> body[x] != '.',
            all_ascii_digit_chars(body.take(i - skip)),
            acc == digits_value_chars(body.take(i - skip)),
            acc <= 0x8000_0000_0000_0000,
        decreases n - i,
    {
        let c = s.get_char(i);
        let cv = c as u32;
        proof {
            assert(body[i - skip] == c);
        }
        if cv < 48 || cv > 57 {
            proof {
                lemma_first_index_of_props(body, '.');
                let dot = first_index_of(body, '.');
                if i - skip < dot {
                    assert(body.take(dot)[i - skip] == c);
                    assert(!all_ascii_digit_chars(body.take(dot)));
                } else {
                    assert(dot < body.len());
                    assert(i - skip > dot);
                    assert(body.skip(dot + 1)[i - skip - dot - 1] == c);
                    assert(!all_ascii_digit_chars(body.skip(dot + 1)));
                }
            }
            return None;
        }
        proof {
            assert(body.take(i - skip + 1).drop_last() =~= body.take((i - skip) as int));
            assert(body.take(i - skip + 1).last() == c);
        }
        acc = acc * 10 + ((cv - 48) as u128);
        i += 1;
        if acc > 0x8000_0000_0000_0000 {
            proof {
                let dot = first_index_of(body, '.');
                lemma_first_index_of_props(body, '.');
                let ip = body.take(dot);
                if all_ascii_digit_chars(ip) {
                    assert(i - skip <= dot);
                    assert(ip.take(i - skip) =~= body.take(i - skip));
                    assert(ip.take(dot) =~= ip);
                    lemma_digits_chars_take_mono(ip, i - skip, dot);
                    let fp = if dot < body.len() {
                        body.skip(dot + 1)
                    } else {
                        Seq::<char>::empty()
                    };
                    if all_ascii_digit_chars(fp) {
                        lemma_frac_ms_bounds(fp);
                    }
                }
            }
            return None;
        }
    }
    let ghost dot_rel = i - skip;
    proof {
        if i < n {
            assert(body[i - skip] == '.');
        }
        lemma_first_index_of_at(body, '.', i - skip);
    }
    // The fraction: its first three digits give the sub-second
    // milliseconds; the rest only have to be digits.
    let mut fr: u64 = 0;
    let ghost fp = if dot_rel < body.len() {
        body.skip(dot_rel + 1)
    } else {
        Seq::<char>::empty()
    };
    if i < n {
        if i + 1 == n && i == skip {
            // Just a dot, or a sign and a dot: no digits at all.
            proof {
                assert(body.take(dot_rel as int).len() == 0);
                assert(fp.len() == 0);
            }
            return None;
        }
        let mut f: usize = i + 1;
        while f < n
            invariant
                i + 1 <= f <= n,
                i < n,
                n == text.len(),
                text == s@,
                body == text.skip(skip as int),
                skip == 0 || skip == 1,
                skip < n,
                skip <= i,
                dot_rel == i - skip,
                first_index_of(body, '.') == dot_rel,
                dot_rel < body.len(),
                skip == 1 ==> (text[0] == '-' || text[0] == '+') && text.drop_first() == body,
                skip == 0 ==> !(text[0] == '-' || text[0] == '+') && text == body,
                neg == (text[0] == '-'),
                fp == body.skip(dot_rel + 1),
                fp.len() == n - i - 1,
                all_ascii_digit_chars(fp.take(f - i - 1)),
                fr == frac_ms(fp.take(f - i - 1)),
                fr <= 999,
            decreases n - f,
        {
            let c = s.get_char(f);
            let cv = c as u32;
            proof {
                assert(fp[f - i - 1] == c);
            }
            if cv < 48 || cv > 57 {
                proof {
                    assert(!all_ascii_digit_chars(fp));
                }
                return None;
            }
            let ghost p = f - i - 1;
            if f - i - 1 == 0 {
                fr = ((cv - 48) as u64) * 100;
            } else if f - i - 1 == 1 {
                fr = fr + ((cv - 48) as u64) * 10;
            } else if f - i - 1 == 2 {
                fr = fr + ((cv - 48) as u64);
            }
            proof {
                let pre = fp.take(p);
                let cur = fp.take(p + 1);
                assert(cur[p] == c);
                assert forall|x: int| 0 <= x < p implies cur[x] == pre[x] by {}
                assert(frac_digit(cur, 0) == if p == 0 {
                    c as u32 - 48
                } else {
                    frac_digit(pre, 0)
                });
                assert(frac_digit(cur, 1) == if p == 1 {
                    c as u32 - 48
                } else {
                    frac_digit(pre, 1)
                });
                assert(frac_digit(cur, 2) == if p == 2 {
                    c as u32 - 48
                } else {
                    frac_digit(pre, 2)
                });
            }
            f += 1;
        }
        proof {
            assert(fp.take((n - i - 1) as int) =~= fp);
        }
    } else {
        if i == skip {
            // An empty string after the sign.
            proof {
                assert(body.take(dot_rel as int).len() == 0);
            }
            return None;
        }
        proof {
            assert(fp.len() == 0);
            assert(fr == frac_ms(fp));
        }
    }
    proof {
        assert(all_ascii_digit_chars(fp));
        lemma_frac_ms_bounds(fp);
    }
    let total: u128 = acc * 1000 + (fr as u128);
    proof {
        let ghost val = seconds_text_ms(text);
        assert(body.take(dot_rel as int) == body.take(first_index_of(body, '.')));
        assert(val == Some(
            if neg {
                -(acc * 1000 + fr)
            } else {
                acc * 1000 + fr
            },
        ));
    }
    if neg {
        if total > 0x8000_0000_0000_0000 {
            return None;
        }
        if total == 0x8000_0000_0000_0000 {
            Some(i64::MIN)
        } else {
            Some(-(total as i64))
        }
    } else {
        if total > 0x7fff_ffff_ffff_ffff {
            None
        } else {
            Some(total as i64)
        }
    }
}

/// The fields a separator splits a string into; the piece after the last
/// separator is a field of its own, so there is always at least one field.
pub open spec fn split_all(s: Seq<char>, sep: char) -> Seq<Seq<char>>
    decreases s.len(),
    via split_all_decreases
{
    let i = first_index_of(s, sep);
    if i >= s.len() {
        seq![s]
    } else {
        seq![s.take(i)] + split_all(s.skip(i + 1), sep)
    }
}

#[via_fn]
proof fn split_all_decreases(s: Seq<char>, sep: char) {
    lemma_first_index_of_nonneg(s, sep);
}

/// A split always yields at least one field.
pub proof fn lemma_split_all_len(s: Seq<char>, sep: char)
    ensures
        split_all(s, sep).len() >= 1,
    decreases s.len(),
{
    lemma_first_index_of_nonneg(s, sep);
    let i = first_index_of(s, sep);
    if i < s.len() {
        crate::stats::lemma_first_index_of_props(s, sep);
        lemma_split_all_len(s.skip(i + 1), sep);
    }
}

/// The placeholder backend name a parsed subscription carries until the
/// catalog resolves the real one.
pub open spec fn null_backend() -> Seq<char> {
    seq!['n', 'u', 'l', 'l']
}

/// Whether one entry of a subscription specification is well formed: a bare
/// name, or `name:period:job_id` with a representable period and job id.
pub open spec fn entry_ok(entry: Seq<char>) -> bool {
    let fields = split_all(entry, ':');
    if fields.len() == 1 {
        true
    } else if fields.len() == 3 {
        match seconds_text_ms(fields[1]) {
            Some(ms) => match crate::stats::decimal_value_chars(fields[2]) {
                Some(j) => i64::MIN <= ms <= i64::MAX && i32::MIN <= j <= i32::MAX,
                None => false,
            },
            None => false,
        }
    } else {
        false
    }
}

/// The subscription one well-formed entry denotes.  An omitted period and
/// job id are the two sentinels; a given period is kept in milliseconds,
/// and a period of exactly -1 second is the "use base period" sentinel.
/// Either way the countdown starts at the requested period in milliseconds.
pub open spec fn entry_metric(entry: Seq<char>) -> MetricModel
    recommends
        entry_ok(entry),
{
    let fields = split_all(entry, ':');
    if fields.len() == 1 {
        MetricModel {
            job_id: -1,
            metric_name: fields[0],
            backend_name: null_backend(),
            sampling_period: -1,
            time_remaining_before_next_measure: -1000,
        }
    } else {
        match seconds_text_ms(fields[1]) {
            Some(ms) => match crate::stats::decimal_value_chars(fields[2]) {
                Some(j) => MetricModel {
                    job_id: j,
                    metric_name: fields[0],
                    backend_name: null_backend(),
                    sampling_period: if ms == -1000 {
                        -1
                    } else {
                        ms
                    },
                    time_remaining_before_next_measure: ms,
                },
                None => MetricModel {
                    job_id: -1,
                    metric_name: fields[0],
                    backend_name: null_backend(),
                    sampling_period: -1,
                    time_remaining_before_next_measure: -1000,
                },
            },
            None => MetricModel {
                job_id: -1,
                metric_name: fields[0],
                backend_name: null_backend(),
                sampling_period: -1,
                time_remaining_before_next_measure: -1000,
            },
        }
    }
}

/// Parse one entry of a subscription specification.
fn parse_entry(entry: &str) -> (r: Option<Metric>)
    ensures
        entry_ok(entry@) ==> r is Some && r.unwrap()@ == entry_metric(entry@),
        !entry_ok(entry@) ==> r is None,
{
    let ghost text = entry@;
    let n = entry.unicode_len();
    let mut c1: usize = 0;
    while c1 < n && entry.get_char(c1) != ':'
        invariant
            c1 <= n,
            n == text.len(),
            text == entry@,
            forall|x: int| 0 <= x < c1 ==> text[x] != ':',
        decreases n - c1,
    {
        c1 += 1;
    }
    proof {
        if c1 < n {
            assert(text[c1 as int] == ':');
        }
        lemma_first_index_of_at(text, ':', c1 as int);
    }
    if c1 == n {
        proof {
            assert(split_all(text, ':') =~= seq![text]);
        }
        let name = String::from_str(entry);
        let m = Metric {
            job_id: -1,
            metric_name: name,
            backend_name: make_null_backend(),
            sampling_period: crate::metric::USE_BASE_PERIOD,
            time_remaining_before_next_measure: -1000,
        };
        proof {
            assert(m@ =~~= entry_metric(text));
        }
        return Some(m);
    }
    let ghost rest1 = text.skip(c1 as int + 1);
    let mut c2 = c1 + 1;
    while c2 < n && entry.get_char(c2) != ':'
        invariant
            c1 < c2 <= n,
            n == text.len(),
            text == entry@,
            forall|x: int| c1 < x < c2 ==> text[x] != ':',
            rest1 == text.skip(c1 as int + 1),
        decreases n - c2,
    {
        c2 += 1;
    }
    proof {
        assert forall|x: int| 0 <= x < c2 - c1 - 1 implies rest1[x] != ':' by {
            assert(rest1[x] == text[c1 + 1 + x]);
        }
        if c2 < n {
            assert(rest1[c2 - c1 - 1] == text[c2 as int]);
        }
        lemma_first_index_of_at(rest1, ':', c2 - c1 - 1);
    }
    if c2 == n {
        // Two fields: a malformed entry.
        proof {
            assert(split_all(rest1, ':') =~= seq![rest1]);
            assert(split_all(text, ':').len() == 2);
        }
        return None;
    }
    let ghost rest2 = text.skip(c2 as int + 1);
    let mut c3 = c2 + 1;
    while c3 < n && entry.get_char(c3) != ':'
        invariant
            c2 < c3 <= n,
            n == text.len(),
            text == entry@,
            forall|x: int| c2 < x < c3 ==> text[x] != ':',
            rest2 == text.skip(c2 as int + 1),
        decreases n - c3,
    {
        c3 += 1;
    }
    proof {
        assert forall|x: int| 0 <= x < c3 - c2 - 1 implies rest2[x] != ':' by {
            assert(rest2[x] == text[c2 + 1 + x]);
        }
        if c3 < n {
            assert(rest2[c3 - c2 - 1] == text[c3 as int]);
        }
        lemma_first_index_of_at(rest2, ':', c3 - c2 - 1);
        assert(rest1.skip(c2 - c1 - 1 + 1) =~= rest2);
    }
    if c3 < n {
        // Four or more fields: a malformed entry.
        proof {
            lemma_split_all_len(rest2.skip(c3 - c2 - 1 + 1), ':');
            assert(split_all(text, ':') == seq![text.take(c1 as int)] + split_all(rest1, ':'));
            assert(split_all(rest1, ':') == seq![rest1.take(c2 - c1 - 1)] + split_all(
                rest1.skip(c2 - c1 - 1 + 1),
                ':',
            ));
            assert(split_all(rest1.skip(c2 - c1 - 1 + 1), ':') == split_all(rest2, ':'));
            assert(split_all(rest2, ':') == seq![rest2.take(c3 - c2 - 1)] + split_all(
                rest2.skip(c3 - c2 - 1 + 1),
                ':',
            ));
            assert(split_all(rest2, ':').len() >= 2);
            assert(split_all(text, ':').len() >= 4);
        }
        return None;
    }
    proof {
        assert(split_all(rest2, ':') =~= seq![rest2]);
        assert(split_all(text, ':') == seq![text.take(c1 as int)] + split_all(rest1, ':'));
        assert(split_all(rest1, ':') == seq![rest1.take(c2 - c1 - 1)] + split_all(
            rest1.skip(c2 - c1 - 1 + 1),
            ':',
        ));
        assert(split_all(rest1.skip(c2 - c1 - 1 + 1), ':') == split_all(rest2, ':'));
        assert(split_all(text, ':') =~= seq![text.take(c1 as int)] + (seq![
            rest1.take(c2 - c1 - 1),
        ] + seq![rest2]));
        assert(split_all(text, ':').len() == 3);
        assert(split_all(text, ':')[1] =~= text.subrange(c1 as int + 1, c2 as int));
        assert(split_all(text, ':')[2] =~= text.subrange(c2 as int + 1, n as int));
    }
    let f1 = entry.substring_char(c1 + 1, c2);
    let f2 = entry.substring_char(c2 + 1, n);
    let ms = match parse_seconds_ms(f1) {
        None => {
            return None;
        },
        Some(v) => v,
    };
    let j64 = match crate::stats::parse_i64_str(f2) {
        None => {
            return None;
        },
        Some(v) => v,
    };
    if j64 < -0x8000_0000i64 || j64 > 0x7fff_ffffi64 {
        return None;
    }
    let name = String::from_str(entry.substring_char(0, c1));
    let m = Metric {
        job_id: j64 as i32,
        metric_name: name,
        backend_name: make_null_backend(),
        sampling_period: if ms == -1000 {
            crate::metric::USE_BASE_PERIOD
        } else {
            ms
        },
        time_remaining_before_next_measure: ms,
    };
    proof {
        assert(m@ =~~= entry_metric(text));
    }
    Some(m)
}

/// The placeholder backend name, as a string.
fn make_null_backend() -> (r: String)
    ensures
        r@ == null_backend(),
{
    let r = String::from_str("null");
    proof {
        reveal_strlit("null");
        assert(r@ =~= null_backend());
    }
    r
}

/// Parse a whole subscription specification: one subscription per
/// comma-separated entry, or `None` — rejecting the entire specification —
/// when any entry is malformed.
pub fn parse_metrics(arg_string: &str) -> (r: Option<Vec<Metric>>)
    ensures
        ({
            let entries = split_all(arg_string@, ',');
            if forall|k: int| 0 <= k < entries.len() ==> entry_ok(#[trigger] entries[k]) {
                &&& r is Some
                &&& r.unwrap().deep_view().len() == entries.len()
                &&& forall|k: int|
                    0 <= k < entries.len() ==> #[trigger] r.unwrap().deep_view()[k]
                        == entry_metric(entries[k])
            } else {
                r is None
            }
        }),
{
    let ghost text = arg_string@;
    let n = arg_string.unicode_len();
    let mut out: Vec<Metric> = Vec::new();
    let ghost done = Seq::<Seq<char>>::empty();
    let mut i: usize = 0;
    proof {
        assert(text.skip(0) =~= text);
        assert(done + split_all(text.skip(0), ',') =~= split_all(text, ','));
    }
    while i <= n
        invariant
            i <= n + 1,
            i <= n,
            n == text.len(),
            text == arg_string@,
            split_all(text, ',') == done + split_all(text.skip(i as int), ','),
            out.deep_view().len() == done.len(),
            forall|k: int| 0 <= k < done.len() ==> entry_ok(#[trigger] done[k]),
            forall|k: int|
                0 <= k < done.len() ==> #[trigger] out.deep_view()[k] == entry_metric(done[k]),
        decreases n - i,
    {
        let ghost tail = text.skip(i as int);
        let mut j = i;
        while j < n && arg_string.get_char(j) != ','
            invariant
                i <= j <= n,
                n == text.len(),
                text == arg_string@,
                forall|x: int| i <= x < j ==> text[x] != ',',
            decreases n - j,
        {
            j += 1;
        }
        proof {
            assert forall|x: int| 0 <= x < j - i implies tail[x] != ',' by {
                assert(tail[x] == text[i + x]);
            }
            if j < n {
                assert(tail[j - i] == text[j as int]);
            }
            lemma_first_index_of_at(tail, ',', j - i);
        }
        let entry = arg_string.substring_char(i, j);
        proof {
            assert(entry@ =~= tail.take(j - i));
        }
        let m = match parse_entry(entry) {
            None => {
                proof {
                    if j == n {
                        assert(split_all(tail, ',') =~= seq![tail]);
                        assert(tail.take(j - i) =~= tail);
                        assert(split_all(text, ',')[done.len() as int] == tail);
                    } else {
                        assert(split_all(tail, ',')[0] == tail.take(j - i));
                        assert(split_all(text, ',')[done.len() as int] == tail.take(j - i));
                    }
                    assert(!entry_ok(split_all(text, ',')[done.len() as int]));
                }
                return None;
            },
            Some(m) => m,
        };
        let ghost out0 = out.deep_view();
        out.push(m);
        proof {
            assert forall|k: int| 0 <= k < out.deep_view().len() implies #[trigger] out.deep_view()[
                k
            ] == (if k < out0.len() {
                out0[k]
            } else {
                m@
            }) by {
                assert(out.deep_view()[k] == out@[k].deep_view());
            }
        }
        if j == n {
            proof {
                assert(split_all(tail, ',') =~= seq![tail]);
                assert(tail.take(j - i) =~= tail);
                let entries = split_all(text, ',');
                assert(entries =~~= done.push(tail));
                assert forall|k: int| 0 <= k < entries.len() implies entry_ok(
                    #[trigger] entries[k],
                ) by {
                    if k < done.len() {
                        assert(entries[k] == done[k]);
                    } else {
                        assert(entries[k] == tail);
                    }
                }
            }
            return Some(out);
        }
        proof {
            assert(text.skip(i as int).skip(j - i + 1) =~= text.skip(j + 1));
            assert(split_all(tail, ',') == seq![tail.take(j - i)] + split_all(
                text.skip(j + 1),
                ',',
            ));
            assert(done.push(tail.take(j - i)) + split_all(text.skip(j + 1), ',') =~~= done + (
            seq![tail.take(j - i)] + split_all(text.skip(j + 1), ',')));
        }
        proof {
            done = done.push(tail.take(j - i));
        }
        i = j + 1;
    }
    None
}

} // verus!
