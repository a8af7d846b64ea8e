//! Text: order, search, trimming and replacement.
use vstd::prelude::*;

verus! {

/// The characters of a text.
pub fn chars_of(text: &str) -> (chars: Vec<char>)
    ensures
        chars@ == text@,
{
    let mut chars: Vec<char> = Vec::new();
    for c in it: text.chars()
        invariant
            chars@ == it.seq().take(it.index() as int),
            it.seq() == text@,
    {
        chars.push(c);
        assert(it.seq().take(it.index() + 1) =~= it.seq().take(it.index() as int).push(c));
    }
    assert(text@.take(text@.len() as int) =~= text@);
    chars
}

/// Whether two texts are the same.
pub fn same_text(a: &str, b: &str) -> (same: bool)
    ensures
        same == (a@ == b@),
{
    a.to_owned() == b.to_owned()
}

/// Append a text.
pub fn append_text(text: &mut String, more: &str)
    ensures
        final(text)@ == old(text)@ + more@,
{
    text.append(more);
}

/// The text of some characters.
pub fn text_of(chars: &[char]) -> (text: String)
    ensures
        text@ == chars@,
{
    let mut text = String::new();
    let mut i: usize = 0;
    assert(chars@.take(0) =~= Seq::<char>::empty());
    while i < chars.len()
        invariant
            i <= chars@.len(),
            text@ == chars@.take(i as int),
        decreases chars@.len() - i,
    {
        text.push(chars[i]);
        assert(chars@.take(i + 1) =~= chars@.take(i as int).push(chars@[i as int]));
        i += 1;
    }
    assert(chars@.take(i as int) =~= chars@);
    text
}

/// Whether `a` comes before `b`: at the first place where they differ `a` has
/// the smaller character or has ended.
pub open spec fn precedes(a: Seq<char>, b: Seq<char>) -> bool {
    exists|k: int| #[trigger] differ_at(a, b, k)
}

/// Whether `a` and `b` agree before place `k` and `a` comes first there.
pub open spec fn differ_at(a: Seq<char>, b: Seq<char>, k: int) -> bool {
    &&& 0 <= k <= a.len()
    &&& k < b.len()
    &&& forall|i: int| 0 <= i < k ==> a[i] == b[i]
    &&& k < a.len() ==> (a[k] as u32) < (b[k] as u32)
}

/// No text comes before itself.
pub proof fn lemma_irreflexive(a: Seq<char>)
    ensures
        !precedes(a, a),
{
    if precedes(a, a) {
        let k = choose|k: int| #[trigger] differ_at(a, a, k);
        assert(differ_at(a, a, k));
    }
}

/// The order is transitive.
pub proof fn lemma_transitive(a: Seq<char>, b: Seq<char>, c: Seq<char>)
    requires
        precedes(a, b),
        precedes(b, c),
    ensures
        precedes(a, c),
{
    let k = choose|k: int| #[trigger] differ_at(a, b, k);
    let m = choose|m: int| #[trigger] differ_at(b, c, m);
    let n = if k < m {
        k
    } else {
        m
    };
    assert(differ_at(a, c, n));
}

/// Two texts are the same or one comes before the other.
pub proof fn lemma_total(a: Seq<char>, b: Seq<char>)
    ensures
        a == b || precedes(a, b) || precedes(b, a),
    decreases a.len(),
{
    if a.len() == 0 || b.len() == 0 {
        if a.len() == 0 && b.len() == 0 {
            assert(a =~= b);
        } else if a.len() == 0 {
            assert(differ_at(a, b, 0));
        } else {
            assert(differ_at(b, a, 0));
        }
    } else if a[0] != b[0] {
        vstd::utf8::char_u32_cast(a[0], a[0] as u32);
        vstd::utf8::char_u32_cast(b[0], b[0] as u32);
        if (a[0] as u32) < (b[0] as u32) {
            assert(differ_at(a, b, 0));
        } else {
            assert(differ_at(b, a, 0));
        }
    } else {
        let x = a.skip(1);
        let y = b.skip(1);
        lemma_total(x, y);
        if x == y {
            assert forall|i: int| 0 <= i < a.len() implies a[i] == b[i] by {
                if i > 0 {
                    assert(x[i - 1] == y[i - 1]);
                }
            }
            assert(a.len() == x.len() + 1 && b.len() == y.len() + 1);
            assert(a =~= b);
        } else if precedes(x, y) {
            let k = choose|k: int| #[trigger] differ_at(x, y, k);
            assert forall|i: int| 0 <= i < k + 1 implies a[i] == b[i] by {
                if i > 0 {
                    assert(x[i - 1] == y[i - 1]);
                }
            }
            assert(differ_at(a, b, k + 1));
        } else {
            let k = choose|k: int| #[trigger] differ_at(y, x, k);
            assert forall|i: int| 0 <= i < k + 1 implies a[i] == b[i] by {
                if i > 0 {
                    assert(x[i - 1] == y[i - 1]);
                }
            }
            assert(differ_at(b, a, k + 1));
        }
    }
}

/// Compare two texts.
pub fn text_precedes(a: &str, b: &str) -> (before: bool)
    ensures
        before == precedes(a@, b@),
        !before ==> a@ == b@ || precedes(b@, a@),
        before ==> a@ != b@ && !precedes(b@, a@),
{
    let a = chars_of(a);
    let b = chars_of(b);
    let mut k: usize = 0;
    while k < a.len() && k < b.len() && a[k] == b[k]
        invariant
            k <= a@.len(),
            k <= b@.len(),
            forall|i: int| 0 <= i < k ==> a@[i] == b@[i],
        decreases a@.len() - k,
    {
        k += 1;
    }
    let before: bool = if k == b.len() {
        false
    } else if k == a.len() {
        true
    } else {
        let first: char = a[k];
        let second: char = b[k];
        (first as u32) < (second as u32)
    };
    proof {
        lemma_irreflexive(a@);
        if before {
            assert(differ_at(a@, b@, k as int));
            if precedes(b@, a@) {
                lemma_transitive(a@, b@, a@);
            }
        } else {
            if precedes(a@, b@) {
                let m = choose|m: int| #[trigger] differ_at(a@, b@, m);
                assert(m == k);
            }
            if k < a@.len() {
                if k < b@.len() {
                    vstd::utf8::char_u32_cast(a@[k as int], a@[k as int] as u32);
                    vstd::utf8::char_u32_cast(b@[k as int], b@[k as int] as u32);
                }
                assert(differ_at(b@, a@, k as int));
            } else {
                assert(a@ =~= b@);
            }
        }
    }
    before
}

/// White space as Unicode defines it.
pub open spec fn is_space(c: char) -> bool {
    let n = c as u32;
    ||| 0x09 <= n <= 0x0d
    ||| n == 0x20
    ||| n == 0x85
    ||| n == 0xa0
    ||| n == 0x1680
    ||| 0x2000 <= n <= 0x200a
    ||| n == 0x2028
    ||| n == 0x2029
    ||| n == 0x202f
    ||| n == 0x205f
    ||| n == 0x3000
}

/// Whether a character is white space.
pub fn char_is_space(c: char) -> (space: bool)
    ensures
        space == is_space(c),
{
    let n: u32 = c as u32;
    (0x09 <= n && n <= 0x0d) || n == 0x20 || n == 0x85 || n == 0xa0 || n == 0x1680 || (0x2000 <= n
        && n <= 0x200a) || n == 0x2028 || n == 0x2029 || n == 0x202f || n == 0x205f || n == 0x3000
}

/// The text without white space at its ends.
pub open spec fn trimmed(s: Seq<char>) -> Seq<char>
    decreases s.len(),
{
    if s.len() == 0 {
        s
    } else if is_space(s[0]) {
        trimmed(s.skip(1))
    } else if is_space(s.last()) {
        trimmed(s.drop_last())
    } else {
        s
    }
}

/// Remove white space from both ends of part of a text: the part from the first
/// to before the second returned place is left.
pub fn trim_range(chars: &[char], from: usize, to: usize) -> (r: (usize, usize))
    requires
        from <= to <= chars@.len(),
    ensures
        from <= r.0 <= r.1 <= to,
        chars@.subrange(r.0 as int, r.1 as int) == trimmed(chars@.subrange(from as int, to as int)),
{
    let mut i: usize = from;
    let mut j: usize = to;
    let ghost whole = chars@.subrange(from as int, to as int);
    while i < j && char_is_space(chars[i])
        invariant
            from <= i <= j <= to <= chars@.len(),
            j == to,
            trimmed(chars@.subrange(i as int, j as int)) == trimmed(whole),
        decreases j - i,
    {
        assert(chars@.subrange(i as int, j as int).skip(1) =~= chars@.subrange(i + 1, j as int));
        i += 1;
    }
    while i < j && char_is_space(chars[j - 1])
        invariant
            from <= i <= j <= to <= chars@.len(),
            i < j ==> !is_space(chars@[i as int]),
            trimmed(chars@.subrange(i as int, j as int)) == trimmed(whole),
        decreases j - i,
    {
        assert(chars@.subrange(i as int, j as int).drop_last() =~= chars@.subrange(
            i as int,
            j - 1,
        ));
        j -= 1;
    }
    (i, j)
}

/// Whether a text is empty but for white space.
pub fn is_blank(text: &str) -> (blank: bool)
    ensures
        blank == (trimmed(text@).len() == 0),
{
    let chars = chars_of(text);
    assert(chars@.subrange(0, chars@.len() as int) =~= chars@);
    let (from, to) = trim_range(chars.as_slice(), 0, chars.len());
    from == to
}

/// Whether `part` stands in `s` at place `i`.
pub open spec fn stands_at<A>(s: Seq<A>, part: Seq<A>, i: int) -> bool {
    0 <= i && i + part.len() <= s.len() && s.subrange(i, i + part.len()) == part
}

/// The text without the occurrences of `part`, taken from the left and not
/// overlapping.
pub open spec fn without(s: Seq<char>, part: Seq<char>) -> Seq<char>
    decreases s.len(),
{
    if s.len() == 0 || part.len() == 0 {
        s
    } else if stands_at(s, part, 0) {
        without(s.skip(part.len() as int), part)
    } else {
        seq![s[0]] + without(s.skip(1), part)
    }
}

/// Whether `part` stands in `chars` at place `i`.
pub fn is_at(chars: &[char], part: &[char], i: usize) -> (found: bool)
    requires
        i <= chars@.len(),
    ensures
        found == stands_at(chars@, part@, i as int),
{
    if part.len() > chars.len() - i {
        return false;
    }
    let mut k: usize = 0;
    assert(chars.len() == chars@.len());
    while k < part.len()
        invariant
            chars.len() == chars@.len(),
            i + part@.len() <= chars@.len(),
            k <= part@.len(),
            forall|m: int| 0 <= m < k ==> #[trigger] chars@[i + m] == part@[m],
        decreases part@.len() - k,
    {
        if chars[i + k] != part[k] {
            assert(chars@.subrange(i as int, i + part@.len())[k as int] != part@[k as int]);
            return false;
        }
        k += 1;
    }
    assert forall|m: int| 0 <= m < part@.len() implies #[trigger] chars@.subrange(
        i as int,
        i + part@.len(),
    )[m] == part@[m] by {
        assert(chars@[i + m] == part@[m]);
    }
    assert(chars@.subrange(i as int, i + part@.len()) =~= part@);
    true
}

/// Remove the occurrences of `part`.
pub fn remove_all(text: &str, part: &str) -> (r: String)
    requires
        part@.len() > 0,
    ensures
        r@ == without(text@, part@),
{
    let chars = chars_of(text);
    let pattern = chars_of(part);
    let mut out = String::new();
    let mut i: usize = 0;
    assert(chars@.skip(0) =~= chars@);
    assert(Seq::<char>::empty() + without(chars@, pattern@) =~= without(chars@, pattern@));
    while i < chars.len()
        invariant
            i <= chars@.len(),
            pattern@.len() > 0,
            out@ + without(chars@.skip(i as int), pattern@) == without(chars@, pattern@),
        decreases chars@.len() - i,
    {
        let ghost rest = chars@.skip(i as int);
        let found: bool = is_at(chars.as_slice(), pattern.as_slice(), i);
        proof {
            if i + pattern@.len() <= chars@.len() {
                assert(rest.subrange(0, pattern@.len() as int) =~= chars@.subrange(
                    i as int,
                    i + pattern@.len(),
                ));
            }
            assert(found == stands_at(rest, pattern@, 0));
        }
        if found {
            assert(rest.skip(pattern@.len() as int) =~= chars@.skip(i + pattern@.len()));
            i += pattern.len();
        } else {
            proof {
                let tail = without(chars@.skip(i + 1), pattern@);
                assert(rest.skip(1) =~= chars@.skip(i + 1));
                assert(out@ + (seq![rest[0]] + tail) =~= out@.push(chars@[i as int]) + tail);
            }
            out.push(chars[i]);
            i += 1;
        }
    }
    assert(chars@.skip(i as int) =~= Seq::<char>::empty());
    assert(out@ + Seq::<char>::empty() =~= out@);
    out
}

/// The words of a text with one blank between them.
pub open spec fn squeezed(s: Seq<char>) -> Seq<char>
    decreases s.len(),
{
    if s.len() == 0 {
        s
    } else {
        let earlier = squeezed(s.drop_last());
        if is_space(s.last()) {
            earlier
        } else if s.len() > 1 && is_space(s[s.len() - 2]) && earlier.len() > 0 {
            earlier.push(' ').push(s.last())
        } else {
            earlier.push(s.last())
        }
    }
}

/// Put one blank between the words of a text.
pub fn squeeze(text: &str) -> (r: String)
    ensures
        r@ == squeezed(text@),
{
    let chars = chars_of(text);
    let mut out = String::new();
    let mut any: bool = false;
    let mut gap: bool = false;
    let mut i: usize = 0;
    assert(chars@.take(0) =~= Seq::<char>::empty());
    while i < chars.len()
        invariant
            i <= chars@.len(),
            out@ == squeezed(chars@.take(i as int)),
            any == (out@.len() > 0),
            gap == (i > 0 && is_space(chars@[i - 1])),
        decreases chars@.len() - i,
    {
        let c: char = chars[i];
        proof {
            let now = chars@.take(i + 1);
            assert(now.drop_last() =~= chars@.take(i as int));
            assert(now.last() == c);
        }
        let space: bool = char_is_space(c);
        if !space {
            if gap && any {
                out.push(' ');
            }
            out.push(c);
            any = true;
        }
        gap = space;
        i += 1;
    }
    assert(chars@.take(i as int) =~= chars@);
    out
}

/// The first place of `c`, or the length of the text where it does not occur.
pub open spec fn first_place(s: Seq<char>, c: char) -> int
    decreases s.len(),
{
    if s.len() == 0 || s[0] == c {
        0
    } else {
        1 + first_place(s.skip(1), c)
    }
}

/// Find the first place of `c` in part of a text.
pub fn find(chars: &[char], from: usize, to: usize, c: char) -> (place: usize)
    requires
        from <= to <= chars@.len(),
    ensures
        from <= place <= to,
        place - from == first_place(chars@.subrange(from as int, to as int), c),
{
    let mut i: usize = from;
    let ghost whole = chars@.subrange(from as int, to as int);
    assert(chars.len() == chars@.len());
    while i < to && chars[i] != c
        invariant
            from <= i <= to <= chars@.len() <= usize::MAX,
            i - from + first_place(chars@.subrange(i as int, to as int), c) == first_place(whole, c),
        decreases to - i,
    {
        assert(chars@.subrange(i as int, to as int).skip(1) =~= chars@.subrange(i + 1, to as int));
        i += 1;
    }
    i
}

} // verus!
