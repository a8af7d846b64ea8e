//! What the words of a chart say, in plain terms.
use vstd::prelude::*;

use crate::text::{append_decimal, decimal};

use super::arguments::{arg_value, has_arg, place_of};
use super::hardware::{configured_hardware, entry, hardware_setting, setting, text_in};
use super::lines::{row_starts, starts};
use super::results::{requested_chart, results_root, Chart};
use super::rows::Row;
use super::words::{
    char_is_space, differ_at, first_place, is_space, precedes, squeeze, squeezed, stands_at,
    text_precedes, trimmed,
};

verus! {

/// A number is written digit by digit, the most significant first.
pub proof fn law_append_decimal(
    short: &mut String,
    long: &mut String,
    n: u64,
    m: u64,
    d: u64,
)
    requires
        call_ensures(append_decimal, (short, n), ()),
        call_ensures(append_decimal, (long, m), ()),
        old(short)@ == old(long)@,
        d < 10,
        m == 10 * n + d,
    ensures
        n > 0 ==> final(long)@ == final(short)@.push((48 + d) as char),
        n == 0 ==> final(long)@ == old(long)@.push((48 + d) as char),
{
    assert(m / 10 == n);
    assert(m % 10 == d);
    if n > 0 {
        assert(decimal(m as nat) == decimal(n as nat).push((48 + d) as char));
        assert(old(long)@ + decimal(n as nat).push((48 + d) as char) =~= (old(long)@ + decimal(
            n as nat,
        )).push((48 + d) as char));
    } else {
        assert(old(long)@ + seq![(48 + d) as char] =~= old(long)@.push((48 + d) as char));
    }
}

/// Texts are ordered as in a dictionary: by the first character that differs, and
/// a text comes before any longer one that starts with it.
pub proof fn law_text_precedes(
    a: &str,
    b: &str,
    before: bool,
    x: &str,
    y: &str,
    rest: bool,
    c: char,
)
    requires
        call_ensures(text_precedes, (a, b), before),
        call_ensures(text_precedes, (x, y), rest),
        x@ == seq![c] + a@,
        y@ == seq![c] + b@,
    ensures
        a@.len() == 0 ==> (before <==> b@.len() > 0),
        b@.len() == 0 ==> !before,
        a@.len() > 0 && b@.len() > 0 && a@[0] != b@[0] ==> (before <==> (a@[0] as u32) < (
        b@[0] as u32)),
        rest == before,
{
    let p = a@;
    let q = b@;
    if p.len() == 0 && q.len() > 0 {
        assert(differ_at(p, q, 0));
    }
    if p.len() > 0 && q.len() > 0 && p[0] != q[0] {
        vstd::utf8::char_u32_cast(p[0], p[0] as u32);
        vstd::utf8::char_u32_cast(q[0], q[0] as u32);
        if (p[0] as u32) < (q[0] as u32) {
            assert(differ_at(p, q, 0));
        }
    }
    assert forall|k: int| #[trigger] differ_at(p, q, k) implies differ_at(x@, y@, k + 1) by {
        assert forall|i: int| 0 <= i < k + 1 implies x@[i] == y@[i] by {
            if i > 0 {
                assert(p[i - 1] == q[i - 1]);
            }
        }
    }
    if precedes(p, q) {
        let k = choose|k: int| #[trigger] differ_at(p, q, k);
        assert(differ_at(x@, y@, k + 1));
    }
    if precedes(x@, y@) {
        let k = choose|k: int| #[trigger] differ_at(x@, y@, k);
        assert(k > 0);
        assert forall|i: int| 0 <= i < k - 1 implies p[i] == q[i] by {
            assert(x@[i + 1] == y@[i + 1]);
        }
        assert(differ_at(p, q, k - 1));
    }
}

/// Where an argument stands first.
proof fn lemma_place(args: Seq<String>, name: Seq<char>)
    ensures
        0 <= place_of(args, name) <= args.len(),
        forall|i: int| 0 <= i < place_of(args, name) ==> (#[trigger] args[i])@ != name,
        place_of(args, name) < args.len() ==> args[place_of(args, name)]@ == name,
    decreases args.len(),
{
    if args.len() > 0 && args[0]@ != name {
        let rest = args.skip(1);
        lemma_place(rest, name);
        assert forall|i: int| 0 <= i < place_of(args, name) implies (#[trigger] args[i])@
            != name by {
            if i > 0 {
                assert(rest[i - 1] == args[i]);
            }
        }
    }
}

/// An argument is given exactly if it stands among the arguments. Its value is
/// what follows where it stands first.
pub proof fn law_arguments(
    args: &[String],
    name: &str,
    present: bool,
    value: Option<String>,
    i: int,
)
    requires
        call_ensures(has_arg, (args, name), present),
        call_ensures(arg_value, (args, name), value),
        0 <= i < args@.len(),
        args@[i]@ == name@,
        forall|j: int| 0 <= j < i ==> (#[trigger] args@[j])@ != name@,
    ensures
        present,
        value is Some <==> i + 1 < args@.len(),
        value is Some ==> value->Some_0@ == args@[i + 1]@,
{
    lemma_place(args@, name@);
    let p = place_of(args@, name@);
    if p > i {
        assert(args@[i]@ != name@);
    }
    if p < i {
        assert(args@[p]@ != name@);
    }
}

/// An argument that does not stand among the arguments is not given.
pub proof fn law_missing_argument(
    args: &[String],
    name: &str,
    present: bool,
    value: Option<String>,
)
    requires
        call_ensures(has_arg, (args, name), present),
        call_ensures(arg_value, (args, name), value),
        forall|j: int| 0 <= j < args@.len() ==> (#[trigger] args@[j])@ != name@,
    ensures
        !present,
        value is None,
{
    lemma_place(args@, name@);
}

/// Whether an argument stands among the arguments.
pub open spec fn given(args: Seq<String>, name: Seq<char>) -> bool {
    exists|i: int| 0 <= i < args.len() && (#[trigger] args[i])@ == name
}

/// A latency chart is drawn where a topology follows the first argument that asks
/// for one. Otherwise an argument for the summary decides, and without one a
/// chart in detail is drawn, for several consumers exactly if that is asked for.
pub proof fn law_requested_chart(args: &[String], chart: Chart, topology: Option<String>)
    requires
        call_ensures(requested_chart, (args,), chart),
        call_ensures(arg_value, (args, "--latency"), topology),
    ensures
        match chart {
            Chart::Latency(name) => topology is Some && name@ == topology->Some_0@,
            Chart::Summary => topology is None && given(args@, "--summary"@),
            Chart::Detail(several) => {
                &&& topology is None
                &&& !given(args@, "--summary"@)
                &&& several == given(args@, "--mpmc"@)
            },
        },
{
    lemma_place(args@, "--latency"@);
    lemma_given(args@, "--summary"@);
    lemma_given(args@, "--mpmc"@);
}

/// An argument is given where it has a place.
proof fn lemma_given(args: Seq<String>, name: Seq<char>)
    ensures
        given(args, name) <==> place_of(args, name) < args.len(),
{
    lemma_place(args, name);
    let p = place_of(args, name);
    if p < args.len() {
        assert(args[p]@ == name);
    }
    if given(args, name) {
        let i = choose|i: int| 0 <= i < args.len() && (#[trigger] args[i])@ == name;
        if p >= args.len() {
            assert(args[i]@ != name);
        }
    }
}

/// The results lie where an argument says, else where the environment says, else
/// below the home of the user; nowhere without any of them.
pub proof fn law_results_root(
    argument: Option<String>,
    configured: Option<String>,
    home: Option<String>,
    root: Option<String>,
)
    requires
        call_ensures(results_root, (argument, configured, home), root),
    ensures
        root is Some <==> argument is Some || configured is Some || home is Some,
        argument is Some ==> root->Some_0@ == argument->Some_0@,
        argument is None && configured is Some ==> root->Some_0@ == configured->Some_0@,
        argument is None && configured is None && home is Some ==> root->Some_0@
            == home->Some_0@ + "/.cache/fanring"@,
{
}

/// Where rows may start, in order.
proof fn lemma_starts(line: Seq<u8>, n: int)
    requires
        0 <= n <= line.len() <= usize::MAX,
    ensures
        forall|i: usize| #[trigger]
            starts(line, n).contains(i) <==> i < n && stands_at(
                line,
                super::lines::opening(),
                i as int,
            ),
        forall|j: int, k: int|
            0 <= j < k < starts(line, n).len() ==> starts(line, n)[j] < starts(line, n)[k],
        forall|k: int| 0 <= k < starts(line, n).len() ==> #[trigger] starts(line, n)[k] < n,
    decreases n,
{
    if n > 0 {
        lemma_starts(line, n - 1);
        let earlier = starts(line, n - 1);
        let all = starts(line, n);
        assert forall|i: usize| #[trigger] all.contains(i) <==> i < n && stands_at(
            line,
            super::lines::opening(),
            i as int,
        ) by {
            if all.contains(i) {
                let k = choose|k: int| 0 <= k < all.len() && all[k] == i;
                if k < earlier.len() {
                    assert(earlier[k] == i);
                    assert(earlier.contains(i));
                }
            }
            if i < n && stands_at(line, super::lines::opening(), i as int) {
                if i < n - 1 {
                    assert(earlier.contains(i));
                    let k = choose|k: int| 0 <= k < earlier.len() && earlier[k] == i;
                    assert(all[k] == i);
                } else {
                    assert(all[all.len() - 1] == i);
                }
            }
        }
    }
}

/// A row may start exactly where the nine bytes of `{"run_id"` stand; the places
/// come in order.
pub proof fn law_row_starts(line: &[u8], places: Vec<usize>)
    requires
        call_ensures(row_starts, (line,), places),
        line@.len() <= usize::MAX,
    ensures
        forall|i: usize| #[trigger]
            places@.contains(i) <==> {
                &&& i + 9 <= line@.len()
                &&& line@[i as int] == 0x7b
                &&& line@[i + 1] == 0x22
                &&& line@[i + 2] == 0x72
                &&& line@[i + 3] == 0x75
                &&& line@[i + 4] == 0x6e
                &&& line@[i + 5] == 0x5f
                &&& line@[i + 6] == 0x69
                &&& line@[i + 7] == 0x64
                &&& line@[i + 8] == 0x22
            },
        forall|j: int, k: int| 0 <= j < k < places@.len() ==> places@[j] < places@[k],
{
    lemma_starts(line@, line@.len() as int);
    assert forall|i: usize| #[trigger] places@.contains(i) <==> {
        &&& i + 9 <= line@.len()
        &&& line@[i as int] == 0x7b
        &&& line@[i + 1] == 0x22
        &&& line@[i + 2] == 0x72
        &&& line@[i + 3] == 0x75
        &&& line@[i + 4] == 0x6e
        &&& line@[i + 5] == 0x5f
        &&& line@[i + 6] == 0x69
        &&& line@[i + 7] == 0x64
        &&& line@[i + 8] == 0x22
    } by {
        let part = line@.subrange(i as int, i + 9);
        if i + 9 <= line@.len() {
            assert(part[0] == line@[i as int]);
            assert(part[1] == line@[i + 1]);
            assert(part[2] == line@[i + 2]);
            assert(part[3] == line@[i + 3]);
            assert(part[4] == line@[i + 4]);
            assert(part[5] == line@[i + 5]);
            assert(part[6] == line@[i + 6]);
            assert(part[7] == line@[i + 7]);
            assert(part[8] == line@[i + 8]);
            if places@.contains(i) {
                assert(part == super::lines::opening());
            } else if part[0] == 0x7b && part[1] == 0x22 && part[2] == 0x72 && part[3] == 0x75
                && part[4] == 0x6e && part[5] == 0x5f && part[6] == 0x69 && part[7] == 0x64
                && part[8] == 0x22 {
                assert(part =~= super::lines::opening());
            }
        }
    }
}

/// The characters that are white space.
pub proof fn law_white_space(c: char, space: bool)
    requires
        call_ensures(char_is_space, (c,), space),
    ensures
        space <==> {
            ||| 9 <= c as u32 <= 13
            ||| c as u32 == 32
            ||| c as u32 == 133
            ||| c as u32 == 160
            ||| c as u32 == 5760
            ||| 8192 <= c as u32 <= 8202
            ||| c as u32 == 8232
            ||| c as u32 == 8233
            ||| c as u32 == 8239
            ||| c as u32 == 8287
            ||| c as u32 == 12288
        },
{
}

/// One more line decides about the setting that it gives and leaves every other
/// as it was.
pub proof fn law_last_setting_counts(
    content: &str,
    longer: &str,
    name: &str,
    key: Seq<char>,
    text: Seq<char>,
    before: Option<String>,
    after: Option<String>,
)
    requires
        call_ensures(hardware_setting, (content, name), before),
        call_ensures(hardware_setting, (longer, name), after),
        longer@ == content@ + seq!['\n'] + key + seq!['='] + text,
        is_tight(key) && key.len() > 0 && key[0] != '#',
        is_tight(text) && text.len() > 0,
        forall|i: int| 0 <= i < key.len() ==> #[trigger] key[i] != '=' && key[i] != '\n',
        forall|i: int| 0 <= i < text.len() ==> #[trigger] text[i] != '\n',
    ensures
        key == name@ ==> after is Some && after->Some_0@ == text,
        key != name@ ==> text_in(after) == text_in(before),
{
    let line = key + seq!['='] + text;
    assert(longer@ =~= content@ + seq!['\n'] + line);
    assert forall|i: int| 0 <= i < line.len() implies #[trigger] line[i] != '\n' by {
        if i < key.len() {
            assert(key[i] != '\n');
        } else if i > key.len() {
            assert(text[i - key.len() - 1] != '\n');
        }
    }
    lemma_setting(content@, line, name@, None);
    lemma_entry(key, text);
}

/// A comment, and a line without an equals sign, changes no setting.
pub proof fn law_comments_set_nothing(
    content: &str,
    longer: &str,
    name: &str,
    line: Seq<char>,
    before: Option<String>,
    after: Option<String>,
)
    requires
        call_ensures(hardware_setting, (content, name), before),
        call_ensures(hardware_setting, (longer, name), after),
        longer@ == content@ + seq!['\n'] + line,
        is_tight(line),
        forall|i: int| 0 <= i < line.len() ==> #[trigger] line[i] != '\n',
        line.len() == 0 || line[0] == '#' || forall|i: int|
            0 <= i < line.len() ==> #[trigger] line[i] != '=',
    ensures
        text_in(after) == text_in(before),
{
    lemma_setting(content@, line, name@, None);
    lemma_trim(line);
    lemma_first(line, '=');
}

/// Whether a text neither starts nor ends with white space.
pub open spec fn is_tight(s: Seq<char>) -> bool {
    s.len() > 0 ==> !is_space(s[0]) && !is_space(s[s.len() - 1])
}

/// Nothing is trimmed from a text without white space at its ends.
proof fn lemma_trim(s: Seq<char>)
    requires
        is_tight(s),
    ensures
        trimmed(s) == s,
{
}

/// Where a character stands first.
proof fn lemma_first(s: Seq<char>, c: char)
    ensures
        0 <= first_place(s, c) <= s.len(),
        forall|i: int| 0 <= i < first_place(s, c) ==> #[trigger] s[i] != c,
        first_place(s, c) < s.len() ==> s[first_place(s, c)] == c,
    decreases s.len(),
{
    if s.len() > 0 && s[0] != c {
        let rest = s.skip(1);
        lemma_first(rest, c);
        assert forall|i: int| 0 <= i < first_place(s, c) implies #[trigger] s[i] != c by {
            if i > 0 {
                assert(rest[i - 1] == s[i]);
            }
        }
    }
}

/// What a line with a key and a text sets.
proof fn lemma_entry(key: Seq<char>, text: Seq<char>)
    requires
        is_tight(key) && key.len() > 0 && key[0] != '#',
        is_tight(text) && text.len() > 0,
        forall|i: int| 0 <= i < key.len() ==> #[trigger] key[i] != '=',
    ensures
        entry(key + seq!['='] + text) == Some((key, text)),
{
    let line = key + seq!['='] + text;
    assert(line[0] == key[0]);
    assert(line[line.len() - 1] == text[text.len() - 1]);
    lemma_trim(line);
    lemma_first(line, '=');
    let p = first_place(line, '=');
    assert(line[key.len() as int] == '=');
    if p < key.len() {
        assert(key[p] != '=');
    }
    assert(p == key.len());
    assert(line.take(p) =~= key);
    assert(line.skip(p + 1) =~= text);
    lemma_trim(key);
    lemma_trim(text);
}

/// What one more line does to a setting.
proof fn lemma_setting(
    content: Seq<char>,
    line: Seq<char>,
    name: Seq<char>,
    earlier: Option<Seq<char>>,
)
    requires
        forall|i: int| 0 <= i < line.len() ==> #[trigger] line[i] != '\n',
    ensures
        setting(content + seq!['\n'] + line, name, earlier) == match entry(line) {
            Some((key, value)) => if key == name {
                Some(value)
            } else {
                setting(content, name, earlier)
            },
            None => setting(content, name, earlier),
        },
    decreases content.len(),
{
    let all = content + seq!['\n'] + line;
    let end = first_place(content, '\n');
    let first = first_place(all, '\n');
    lemma_first(content, '\n');
    lemma_first(all, '\n');
    assert(all[content.len() as int] == '\n');
    if end < content.len() {
        assert(all[end] == '\n');
        if first < end {
            assert(content[first] == all[first]);
        }
        assert(first == end);
        assert(all.take(end) =~= content.take(end));
        let rest = content.skip(end + 1);
        assert(all.skip(end + 1) =~= rest + seq!['\n'] + line);
        let now = match entry(content.take(end)) {
            Some((key, value)) => if key == name {
                Some(value)
            } else {
                earlier
            },
            None => earlier,
        };
        lemma_setting(rest, line, name, now);
    } else {
        if first < content.len() {
            assert(content[first] == all[first]);
        }
        assert(first == content.len());
        assert(all.take(first) =~= content);
        assert(content.take(end) =~= content);
        assert(all.skip(first + 1) =~= line);
        lemma_first(line, '\n');
        let p = first_place(line, '\n');
        if p < line.len() {
            assert(line[p] != '\n');
        }
        assert(line.take(p) =~= line);
    }
}

/// A text that was squeezed has no white space but single blanks between words,
/// and keeps every other character in order.
pub proof fn law_squeeze(text: &str, r: String)
    requires
        call_ensures(squeeze, (text,), r),
    ensures
        is_tight(r@),
        forall|i: int|
            0 <= i < r@.len() && is_space(#[trigger] r@[i]) ==> r@[i] == ' ' && !is_space(r@[i + 1]),
        letters(r@) == letters(text@),
{
    lemma_squeezed(text@);
}

/// The characters of a text that are no white space.
pub open spec fn letters(s: Seq<char>) -> Seq<char>
    decreases s.len(),
{
    if s.len() == 0 {
        s
    } else if is_space(s.last()) {
        letters(s.drop_last())
    } else {
        letters(s.drop_last()).push(s.last())
    }
}

/// What squeezing does.
proof fn lemma_squeezed(s: Seq<char>)
    ensures
        is_tight(squeezed(s)),
        forall|i: int|
            0 <= i < squeezed(s).len() && is_space(#[trigger] squeezed(s)[i]) ==> squeezed(s)[i]
                == ' ' && !is_space(squeezed(s)[i + 1]),
        letters(squeezed(s)) == letters(s),
    decreases s.len(),
{
    if s.len() > 0 {
        let earlier = squeezed(s.drop_last());
        let all = squeezed(s);
        lemma_squeezed(s.drop_last());
        if !is_space(s.last()) {
            if s.len() > 1 && is_space(s[s.len() - 2]) && earlier.len() > 0 {
                let mid = earlier.push(' ');
                assert(all == mid.push(s.last()));
                assert(all.drop_last() =~= mid);
                assert(mid.drop_last() =~= earlier);
                assert(is_space(' '));
                assert(letters(mid) == letters(earlier));
                assert(letters(all) == letters(mid).push(s.last()));
                assert forall|i: int| 0 <= i < all.len() && is_space(#[trigger] all[i]) implies all[i]
                    == ' ' && !is_space(all[i + 1]) by {
                    if i < earlier.len() {
                        assert(all[i] == earlier[i]);
                        if i + 1 < earlier.len() {
                            assert(all[i + 1] == earlier[i + 1]);
                        }
                    }
                }
                assert(all[0] == earlier[0]);
            } else {
                assert(all == earlier.push(s.last()));
                assert(all.drop_last() =~= earlier);
                assert(letters(all) == letters(earlier).push(s.last()));
                assert forall|i: int| 0 <= i < all.len() && is_space(#[trigger] all[i]) implies all[i]
                    == ' ' && !is_space(all[i + 1]) by {
                    if i < earlier.len() {
                        assert(all[i] == earlier[i]);
                        if i + 1 < earlier.len() {
                            assert(all[i + 1] == earlier[i + 1]);
                        }
                    }
                }
                if earlier.len() > 0 {
                    assert(all[0] == earlier[0]);
                }
            }
        }
    }
}

/// A saturated profile is described by the whole percentages of the capacity that
/// its watermarks are.
pub proof fn law_saturated_profile(row: &Row, label: String) -> (parts: (nat, nat))
    requires
        call_ensures(Row::throughput_profile_label, (row,), label),
        row.throughput_profile@ == "saturated"@,
        row.nominal_capacity > 0,
        row.low_watermark * 100 <= u64::MAX,
        row.high_watermark * 100 <= u64::MAX,
    ensures
        label@ == "saturated occupancy "@ + decimal(parts.0) + "-"@ + decimal(parts.1) + "%"@,
        parts.0 * row.nominal_capacity <= 100 * row.low_watermark < (parts.0 + 1)
            * row.nominal_capacity,
        parts.1 * row.nominal_capacity <= 100 * row.high_watermark < (parts.1 + 1)
            * row.nominal_capacity,
{
    let c = row.nominal_capacity as int;
    let low = (100 * row.low_watermark) / c;
    let high = (100 * row.high_watermark) / c;
    vstd::arithmetic::div_mod::lemma_fundamental_div_mod(100 * row.low_watermark, c);
    vstd::arithmetic::div_mod::lemma_fundamental_div_mod(100 * row.high_watermark, c);
    assert(c * low == low * c && (low + 1) * c == low * c + c) by (nonlinear_arith);
    assert(c * high == high * c && (high + 1) * c == high * c + c) by (nonlinear_arith);
    vstd::arithmetic::div_mod::lemma_div_pos_is_pos(100 * row.low_watermark, c);
    vstd::arithmetic::div_mod::lemma_div_pos_is_pos(100 * row.high_watermark, c);
    (low as nat, high as nat)
}

/// Whether a text holds more than white space.
pub open spec fn says_something(text: Option<String>) -> bool {
    text is Some && exists|i: int|
        0 <= i < text->Some_0@.len() && !is_space(#[trigger] text->Some_0@[i])
}

/// Trimming leaves nothing of white space alone.
proof fn lemma_blank(s: Seq<char>)
    ensures
        trimmed(s).len() > 0 <==> exists|i: int| 0 <= i < s.len() && !is_space(#[trigger] s[i]),
    decreases s.len(),
{
    if s.len() > 0 {
        if is_space(s[0]) {
            let rest = s.skip(1);
            lemma_blank(rest);
            if exists|i: int| 0 <= i < s.len() && !is_space(#[trigger] s[i]) {
                let i = choose|i: int| 0 <= i < s.len() && !is_space(#[trigger] s[i]);
                assert(rest[i - 1] == s[i]);
            }
            if exists|i: int| 0 <= i < rest.len() && !is_space(#[trigger] rest[i]) {
                let i = choose|i: int| 0 <= i < rest.len() && !is_space(#[trigger] rest[i]);
                assert(s[i + 1] == rest[i]);
            }
        } else {
            assert(!is_space(s[0]));
            if is_space(s.last()) {
                let rest = s.drop_last();
                lemma_blank(rest);
                assert(rest[0] == s[0]);
            }
        }
    }
}

/// A label from the environment is the hardware line, if it says something. Else
/// a label from the file is, unless it is empty. Else the line is made of a prefix
/// and a postfix, each from the environment if it says something there, and
/// otherwise from the file.
pub proof fn law_configured_hardware(
    label: Option<String>,
    prefix: Option<String>,
    postfix: Option<String>,
    content: &str,
    line: Option<String>,
    in_file: Option<String>,
    front: Option<String>,
    back: Option<String>,
)
    requires
        call_ensures(configured_hardware, (label, prefix, postfix, content), line),
        call_ensures(hardware_setting, (content, "label"), in_file),
        call_ensures(hardware_setting, (content, "prefix"), front),
        call_ensures(hardware_setting, (content, "postfix"), back),
    ensures
        says_something(label) ==> line is Some && line->Some_0@ == label->Some_0@,
        !says_something(label) && in_file is Some && in_file->Some_0@.len() > 0 ==> line is Some
            && line->Some_0@ == in_file->Some_0@,
        !says_something(label) && (in_file is None || in_file->Some_0@.len() == 0) ==> {
            let first = if says_something(prefix) {
                prefix
            } else {
                front
            };
            let second = if says_something(postfix) {
                postfix
            } else {
                back
            };
            &&& line is Some <==> first is Some || second is Some
            &&& first is Some && second is Some ==> line->Some_0@ == first->Some_0@ + ", "@
                + second->Some_0@
            &&& first is Some && second is None ==> line->Some_0@ == first->Some_0@
            &&& first is None && second is Some ==> line->Some_0@ == second->Some_0@
        },
{
    if label is Some {
        lemma_blank(label->Some_0@);
    }
    if prefix is Some {
        lemma_blank(prefix->Some_0@);
    }
    if postfix is Some {
        lemma_blank(postfix->Some_0@);
    }
}

} // verus!
