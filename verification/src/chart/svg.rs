//! The head of a drawing: it scales with the page and has a font of its own.
use vstd::prelude::*;

use crate::text::{append_decimal, decimal};

use super::words::{append_text, chars_of, is_at, stands_at, text_of};

verus! {

/// The text with the first occurrence of `part` replaced.
pub open spec fn replaced(s: Seq<char>, part: Seq<char>, with: Seq<char>) -> Seq<char>
    decreases s.len(),
{
    if stands_at(s, part, 0) {
        with + s.skip(part.len() as int)
    } else if s.len() == 0 {
        s
    } else {
        seq![s[0]] + replaced(s.skip(1), part, with)
    }
}

/// Replace the first occurrence of `part`.
pub fn replace_first(text: &str, part: &str, with: &str) -> (r: String)
    ensures
        r@ == replaced(text@, part@, with@),
{
    let chars = chars_of(text);
    let pattern = chars_of(part);
    let mut out = String::new();
    let mut i: usize = 0;
    let ghost wanted = replaced(chars@, pattern@, with@);
    assert(chars@.skip(0) =~= chars@);
    assert(Seq::<char>::empty() + wanted =~= wanted);
    loop
        invariant_except_break
            out@ + replaced(chars@.skip(i as int), pattern@, with@) == wanted,
        invariant
            i <= chars@.len(),
            pattern@ == part@,
            wanted == replaced(chars@, pattern@, with@),
        ensures
            out@ == wanted,
        decreases chars@.len() - i,
    {
        let ghost rest = chars@.skip(i as int);
        let found: bool = is_at(chars.as_slice(), pattern.as_slice(), i);
        proof {
            if i + pattern@.len() <= chars@.len() {
                assert(rest.subrange(0, pattern@.len() as int) =~= chars@.subrange(
                    i as int,
                    i + pattern@.len(),
                ));
            }
            assert(found == stands_at(rest, pattern@, 0));
        }
        if found {
            let ghost before = out@;
            assert(chars.len() == chars@.len());
            append_text(&mut out, with);
            let tail = text_of(
                vstd::slice::slice_subrange(chars.as_slice(), i + pattern.len(), chars.len()),
            );
            append_text(&mut out, tail.as_str());
            proof {
                assert(tail@ =~= rest.skip(pattern@.len() as int));
                assert(before + (with@ + tail@) =~= (before + with@) + tail@);
            }
            break;
        }
        if i == chars.len() {
            assert(out@ + rest =~= out@);
            break;
        }
        proof {
            let more = replaced(chars@.skip(i + 1), pattern@, with@);
            assert(rest.skip(1) =~= chars@.skip(i + 1));
            assert(out@ + (seq![rest[0]] + more) =~= out@.push(chars@[i as int]) + more);
        }
        out.push(chars[i]);
        i += 1;
    }
    out
}

/// The box that a drawing of this size fills.
pub open spec fn view_box(width: u32, height: u32) -> Seq<char> {
    "viewBox=\"0 0 "@ + decimal(width as nat) + " "@ + decimal(height as nat) + "\""@
}

/// How a drawing of fixed size starts.
pub open spec fn fixed_head(width: u32, height: u32) -> Seq<char> {
    "<svg width=\""@ + decimal(width as nat) + "\" height=\""@ + decimal(height as nat) + "\" "@
        + view_box(width, height)
}

/// A drawing without a fixed size and with a font of its own.
pub open spec fn finished(svg: Seq<char>, width: u32, height: u32) -> Seq<char> {
    replaced(
        replaced(svg, fixed_head(width, height), "<svg "@ + view_box(width, height)),
        "xmlns=\"http://www.w3.org/2000/svg\""@,
        "xmlns=\"http://www.w3.org/2000/svg\" font-family=\"system-ui, -apple-system, sans-serif\""@,
    )
}

/// Let a drawing scale with the page and give it a font of its own.
pub fn finish_svg(svg: &str, width: u32, height: u32) -> (r: String)
    ensures
        r@ == finished(svg@, width, height),
{
    let mut view = "viewBox=\"0 0 ".to_owned();
    append_decimal(&mut view, width as u64);
    view.append(" ");
    append_decimal(&mut view, height as u64);
    view.append("\"");
    let mut fixed = "<svg width=\"".to_owned();
    append_decimal(&mut fixed, width as u64);
    fixed.append("\" height=\"");
    append_decimal(&mut fixed, height as u64);
    fixed.append("\" ");
    fixed.append(view.as_str());
    let mut free = "<svg ".to_owned();
    free.append(view.as_str());
    let svg = replace_first(svg, fixed.as_str(), free.as_str());
    replace_first(
        svg.as_str(),
        "xmlns=\"http://www.w3.org/2000/svg\"",
        "xmlns=\"http://www.w3.org/2000/svg\" font-family=\"system-ui, -apple-system, sans-serif\"",
    )
}

} // verus!
