//! The hardware line under a chart's title.
use vstd::prelude::*;

use super::words::{
    chars_of, find, first_place, remove_all, same_text, squeeze, squeezed, text_of, trim_range,
    trimmed, without,
};

verus! {

/// A processor's name without its brand markers.
pub open spec fn simplified(cpu: Seq<char>) -> Seq<char> {
    squeezed(without(without(without(cpu, "(R)"@), "(TM)"@), "CPU "@))
}

/// Remove brand markers and surplus blanks from a processor's name.
pub fn simplify_cpu_name(cpu: &str) -> (name: String)
    ensures
        name@ == simplified(cpu@),
{
    proof {
        reveal_strlit("(R)");
        reveal_strlit("(TM)");
        reveal_strlit("CPU ");
    }
    let name = remove_all(cpu, "(R)");
    let name = remove_all(name.as_str(), "(TM)");
    let name = remove_all(name.as_str(), "CPU ");
    squeeze(name.as_str())
}

/// Two optional parts with a comma between them.
pub open spec fn joined(
    prefix: Option<Seq<char>>,
    postfix: Option<Seq<char>>,
) -> Option<Seq<char>> {
    match (prefix, postfix) {
        (Some(prefix), Some(postfix)) => Some(prefix + ", "@ + postfix),
        (Some(prefix), None) => Some(prefix),
        (None, Some(postfix)) => Some(postfix),
        (None, None) => None,
    }
}

/// The text in an option.
pub open spec fn text_in(text: Option<String>) -> Option<Seq<char>> {
    match text {
        Some(text) => Some(text@),
        None => None,
    }
}

/// Join the configured parts of a hardware line.
pub fn join_hardware_parts(prefix: Option<String>, postfix: Option<String>) -> (label: Option<
    String,
>)
    ensures
        text_in(label) == joined(text_in(prefix), text_in(postfix)),
{
    match (prefix, postfix) {
        (Some(prefix), Some(postfix)) => {
            let mut label = prefix;
            label.append(", ");
            label.append(postfix.as_str());
            Some(label)
        },
        (Some(prefix), None) => Some(prefix),
        (None, Some(postfix)) => Some(postfix),
        (None, None) => None,
    }
}

/// Key and value of a line of the hardware file. Blank lines, comments and lines
/// without `=` have none.
pub open spec fn entry(line: Seq<char>) -> Option<(Seq<char>, Seq<char>)> {
    let line = trimmed(line);
    let place = first_place(line, '=');
    if line.len() == 0 || line[0] == '#' || place >= line.len() {
        None
    } else {
        Some((trimmed(line.take(place)), trimmed(line.skip(place + 1))))
    }
}

/// The value that the lines of `content` give to `name`, the last one counting,
/// or `earlier`.
pub open spec fn setting(
    content: Seq<char>,
    name: Seq<char>,
    earlier: Option<Seq<char>>,
) -> Option<Seq<char>>
    decreases content.len(),
{
    let end = first_place(content, '\n');
    let now = match entry(content.take(end)) {
        Some((key, value)) => if key == name {
            Some(value)
        } else {
            earlier
        },
        None => earlier,
    };
    if end < 0 || end >= content.len() {
        now
    } else {
        setting(content.skip(end + 1), name, now)
    }
}

/// Read the line in part of `chars`.
fn read_entry(chars: &[char], from: usize, to: usize, name: &str) -> (value: Option<String>)
    requires
        from <= to <= chars@.len(),
    ensures
        text_in(value) == match entry(chars@.subrange(from as int, to as int)) {
            Some((key, value)) => if key == name@ {
                Some(value)
            } else {
                None
            },
            None => None,
        },
{
    let ghost line = trimmed(chars@.subrange(from as int, to as int));
    let (start, end) = trim_range(chars, from, to);
    if start == end || chars[start] == '#' {
        return None;
    }
    let place: usize = find(chars, start, end, '=');
    if place == end {
        return None;
    }
    assert(line.take(place - start) =~= chars@.subrange(start as int, place as int));
    assert(line.skip(place - start + 1) =~= chars@.subrange(place + 1, end as int));
    let (k0, k1) = trim_range(chars, start, place);
    let (v0, v1) = trim_range(chars, place + 1, end);
    let key = text_of(vstd::slice::slice_subrange(chars, k0, k1));
    let value = text_of(vstd::slice::slice_subrange(chars, v0, v1));
    if same_text(key.as_str(), name) {
        Some(value)
    } else {
        None
    }
}

/// Look a name up in the hardware file. A later line wins over an earlier one.
pub fn hardware_setting(content: &str, name: &str) -> (value: Option<String>)
    ensures
        text_in(value) == setting(content@, name@, None),
{
    let chars = chars_of(content);
    let mut value: Option<String> = None;
    let mut i: usize = 0;
    let n: usize = chars.len();
    assert(chars@.skip(0) =~= chars@);
    loop
        invariant
            i <= n == chars@.len(),
            setting(chars@.skip(i as int), name@, text_in(value)) == setting(chars@, name@, None),
        ensures
            text_in(value) == setting(chars@, name@, None),
        decreases n - i,
    {
        let ghost rest = chars@.skip(i as int);
        assert(chars@.subrange(i as int, n as int) =~= rest);
        let end: usize = find(chars.as_slice(), i, n, '\n');
        assert(rest.take(end - i) =~= chars@.subrange(i as int, end as int));
        let found = read_entry(chars.as_slice(), i, end, name);
        if found.is_some() {
            value = found;
        }
        if end == n {
            break;
        }
        assert(rest.skip(end - i + 1) =~= chars@.skip(end + 1));
        i = end + 1;
    }
    value
}

/// A text that holds more than white space.
pub open spec fn nonempty(text: Option<Seq<char>>) -> Option<Seq<char>> {
    match text {
        Some(text) => if trimmed(text).len() > 0 {
            Some(text)
        } else {
            None
        },
        None => None,
    }
}

/// Keep a text that holds more than white space.
fn keep_nonempty(text: Option<String>) -> (kept: Option<String>)
    ensures
        text_in(kept) == nonempty(text_in(text)),
{
    match text {
        Some(text) => {
            if super::words::is_blank(text.as_str()) {
                None
            } else {
                Some(text)
            }
        },
        None => None,
    }
}

/// The first text if there is one, otherwise the second.
pub open spec fn either(first: Option<Seq<char>>, second: Option<Seq<char>>) -> Option<Seq<char>> {
    if first is Some {
        first
    } else {
        second
    }
}

/// The configured hardware line: a label, or a prefix and a postfix. Each comes
/// from the environment or else from the hardware file; an empty label counts as
/// none.
pub open spec fn configured(
    label: Option<Seq<char>>,
    prefix: Option<Seq<char>>,
    postfix: Option<Seq<char>>,
    content: Seq<char>,
) -> Option<Seq<char>> {
    let in_file = setting(content, "label"@, None);
    let label = either(
        nonempty(label),
        if in_file is Some && in_file->Some_0.len() > 0 {
            in_file
        } else {
            None
        },
    );
    if label is Some {
        label
    } else {
        joined(
            either(nonempty(prefix), setting(content, "prefix"@, None)),
            either(nonempty(postfix), setting(content, "postfix"@, None)),
        )
    }
}

/// The configured hardware line, from the values of the environment variables
/// and the content of the hardware file.
pub fn configured_hardware(
    label: Option<String>,
    prefix: Option<String>,
    postfix: Option<String>,
    content: &str,
) -> (line: Option<String>)
    ensures
        text_in(line) == configured(text_in(label), text_in(prefix), text_in(postfix), content@),
{
    let label = keep_nonempty(label);
    if label.is_some() {
        return label;
    }
    if let Some(label) = hardware_setting(content, "label") {
        if !label.as_str().is_empty() {
            return Some(label);
        }
    }
    let mut prefix = keep_nonempty(prefix);
    if prefix.is_none() {
        prefix = hardware_setting(content, "prefix");
    }
    let mut postfix = keep_nonempty(postfix);
    if postfix.is_none() {
        postfix = hardware_setting(content, "postfix");
    }
    join_hardware_parts(prefix, postfix)
}

/// The hardware line of a chart: the configured one, or the processor's name.
pub fn chart_hardware(configured: Option<String>, fallback: &str) -> (line: String)
    ensures
        line@ == match text_in(configured) {
            Some(text) => text,
            None => simplified(fallback@),
        },
{
    match configured {
        Some(line) => line,
        None => simplify_cpu_name(fallback),
    }
}

} // verus!
