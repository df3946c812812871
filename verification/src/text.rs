use vstd::prelude::*;

verus! {

/// `String::push` from std: appends one character.
#[verifier::external_body]
pub(crate) fn push_char(s: &mut String, c: char)
    ensures
        final(s)@ == old(s)@.push(c),
{
    s.push(c);
}

/// The characters of a string slice, in order.
pub fn chars_of(s: &str) -> (v: Vec<char>)
    ensures
        v@ == s@,
{
    let mut v: Vec<char> = Vec::new();
    for c in it: s.chars()
        invariant
            v@ == it.seq().take(it.index() as int),
    {
        v.push(c);
    }
    v
}

/// Appends the characters `v[from..to]` to `out`.
pub fn push_range(out: &mut String, v: &Vec<char>, from: usize, to: usize)
    requires
        from <= to <= v@.len(),
    ensures
        final(out)@ == old(out)@ + v@.subrange(from as int, to as int),
{
    let mut i = from;
    while i < to
        invariant
            from <= i <= to <= v@.len(),
            out@ == old(out)@ + v@.subrange(from as int, i as int),
        decreases to - i,
    {
        push_char(out, v[i]);
        i = i + 1;
        assert(v@.subrange(from as int, i as int) == v@.subrange(from as int, i - 1).push(v@[i - 1]));
    }
}

/// A string made of the characters `v[from..to]`.
pub fn string_of_range(v: &Vec<char>, from: usize, to: usize) -> (s: String)
    requires
        from <= to <= v@.len(),
    ensures
        s@ == v@.subrange(from as int, to as int),
{
    let mut s = String::new();
    push_range(&mut s, v, from, to);
    s
}

/// A string made of the characters of `v`.
pub fn string_of(v: &Vec<char>) -> (s: String)
    ensures
        s@ == v@,
{
    let s = string_of_range(v, 0, v.len());
    assert(v@.subrange(0, v@.len() as int) == v@);
    s
}

/// Appends a string slice.
pub fn push_str(out: &mut String, s: &str)
    ensures
        final(out)@ == old(out)@ + s@,
{
    let v = chars_of(s);
    push_range(out, &v, 0, v.len());
    assert(v@.subrange(0, v@.len() as int) == v@);
}

/// Makes a `String` of a string slice.
pub fn owned(s: &str) -> (r: String)
    ensures
        r@ == s@,
{
    let mut r = String::new();
    push_str(&mut r, s);
    r
}

/// The decimal digit character for `d < 10`.
pub open spec fn digit(d: nat) -> char {
    (d + 48) as char
}

/// The decimal notation of `n`, without leading zeros.
pub open spec fn dec(n: nat) -> Seq<char>
    decreases n,
{
    if n < 10 {
        seq![digit(n)]
    } else {
        dec(n / 10).push(digit(n % 10))
    }
}

/// Appends the decimal notation of `n`.
pub fn push_decimal(out: &mut String, n: u64)
    ensures
        final(out)@ == old(out)@ + dec(n as nat),
    decreases n,
{
    if n >= 10 {
        push_decimal(out, n / 10);
    }
    let d: u8 = (n % 10) as u8;
    let c = (d + 48u8) as char;
    assert(c == digit((n % 10) as nat));
    push_char(out, c);
    if n >= 10 {
        assert(dec(n as nat) == dec((n / 10) as nat).push(digit((n % 10) as nat)));
    }
}

/// `k` zero characters.
pub open spec fn zeros(k: nat) -> Seq<char> {
    Seq::new(k, |i: int| '0')
}

/// `s` with zeros in front, up to `width` characters.
pub open spec fn padded(s: Seq<char>, width: nat) -> Seq<char> {
    if s.len() < width {
        zeros((width - s.len()) as nat) + s
    } else {
        s
    }
}

/// The decimal notation of `n` with zeros in front up to `width` characters;
/// a minus sign counts toward the width and stands before the zeros.
pub open spec fn signed_padded(n: int, width: nat) -> Seq<char> {
    if n < 0 {
        seq!['-'] + padded(dec((-n) as nat), if width == 0 { 0 } else { (width - 1) as nat })
    } else {
        padded(dec(n as nat), width)
    }
}

/// Appends the decimal notation of `n` padded with zeros to `width` characters.
pub fn push_padded(out: &mut String, n: u64, width: usize)
    ensures
        final(out)@ == old(out)@ + padded(dec(n as nat), width as nat),
{
    let mut digits = String::new();
    push_decimal(&mut digits, n);
    assert(digits@ == dec(n as nat));
    let len = digits.as_str().unicode_len();
    let ghost start = out@;
    if len < width {
        let mut k: usize = 0;
        while k < width - len
            invariant
                len < width,
                k <= width - len,
                out@ == start + zeros(k as nat),
            decreases width - len - k,
        {
            push_char(out, '0');
            k = k + 1;
            assert(zeros(k as nat) == zeros((k - 1) as nat).push('0'));
        }
    }
    let ghost mid = out@;
    push_str(out, digits.as_str());
    assert(out@ == start + padded(dec(n as nat), width as nat));
}

/// Appends the decimal notation of `n` padded with zeros to `width` characters,
/// the minus sign of a negative number standing before the zeros.
pub fn push_signed_padded(out: &mut String, n: i64, width: usize)
    ensures
        final(out)@ == old(out)@ + signed_padded(n as int, width as nat),
{
    if n < 0 {
        push_char(out, '-');
        let mag: u64 = if n == i64::MIN { 9223372036854775808u64 } else { (-n) as u64 };
        let w = if width == 0 { 0 } else { width - 1 };
        let ghost before = out@;
        push_padded(out, mag, w);
        assert(out@ == old(out)@ + signed_padded(n as int, width as nat));
    } else {
        push_padded(out, n as u64, width);
    }
}

/// The characters that `char::is_whitespace` accepts: those with the Unicode
/// `White_Space` property.
pub open spec fn is_ws(c: char) -> bool {
    let u = c as u32;
    ||| 0x09 <= u <= 0x0d
    ||| u == 0x20
    ||| u == 0x85
    ||| u == 0xa0
    ||| u == 0x1680
    ||| 0x2000 <= u <= 0x200a
    ||| u == 0x2028
    ||| u == 0x2029
    ||| u == 0x202f
    ||| u == 0x205f
    ||| u == 0x3000
}

/// `char::is_whitespace`, decided on the code point.
pub fn is_whitespace(c: char) -> (b: bool)
    ensures
        b == is_ws(c),
{
    let u = c as u32;
    (0x09 <= u && u <= 0x0d) || u == 0x20 || u == 0x85 || u == 0xa0 || u == 0x1680 || (0x2000
        <= u && u <= 0x200a) || u == 0x2028 || u == 0x2029 || u == 0x202f || u == 0x205f || u
        == 0x3000
}

/// `s` without the whitespace at its start.
pub open spec fn trim_start(s: Seq<char>) -> Seq<char>
    decreases s.len(),
{
    if s.len() > 0 && is_ws(s[0]) {
        trim_start(s.drop_first())
    } else {
        s
    }
}

/// `s` without the whitespace at its end.
pub open spec fn trim_end(s: Seq<char>) -> Seq<char>
    decreases s.len(),
{
    if s.len() > 0 && is_ws(s.last()) {
        trim_end(s.drop_last())
    } else {
        s
    }
}

/// `s` without whitespace at either end, as `str::trim` gives it.
pub open spec fn trim(s: Seq<char>) -> Seq<char> {
    trim_end(trim_start(s))
}

/// The bounds of the trimmed part of `v`: `v[start..end]` is `trim(v)`.
pub fn trim_bounds(v: &Vec<char>) -> (r: (usize, usize))
    ensures
        r.0 <= r.1 <= v@.len(),
        v@.subrange(r.0 as int, r.1 as int) == trim(v@),
{
    let mut start: usize = 0;
    assert(v@.subrange(0, v@.len() as int) == v@);
    while start < v.len() && is_whitespace(v[start])
        invariant
            start <= v@.len(),
            trim_start(v@) == trim_start(v@.subrange(start as int, v@.len() as int)),
        decreases v@.len() - start,
    {
        assert(v@.subrange(start as int, v@.len() as int).drop_first() == v@.subrange(
            start + 1,
            v@.len() as int,
        ));
        start = start + 1;
    }
    assert(trim_start(v@) == v@.subrange(start as int, v@.len() as int));
    let mut end: usize = v.len();
    while end > start && is_whitespace(v[end - 1])
        invariant
            start <= end <= v@.len(),
            trim(v@) == trim_end(v@.subrange(start as int, end as int)),
        decreases end,
    {
        assert(v@.subrange(start as int, end as int).drop_last() == v@.subrange(
            start as int,
            end - 1,
        ));
        end = end - 1;
    }
    (start, end)
}

/// Whether `needle` occurs in `hay` at position `i`.
pub open spec fn occurs_at(hay: Seq<char>, needle: Seq<char>, i: int) -> bool {
    0 <= i && i + needle.len() <= hay.len() && hay.subrange(i, i + needle.len()) == needle
}

/// Whether `needle` occurs anywhere in `hay`, as `str::contains` answers.
pub open spec fn contains_seq(hay: Seq<char>, needle: Seq<char>) -> bool {
    exists|i: int| occurs_at(hay, needle, i)
}

/// Whether `needle` matches `hay` at position `i`, character by character.
fn matches_at(hay: &Vec<char>, needle: &Vec<char>, i: usize) -> (b: bool)
    requires
        i + needle@.len() <= hay@.len(),
    ensures
        b == occurs_at(hay@, needle@, i as int),
{
    let mut k: usize = 0;
    while k < needle.len()
        invariant
            i + needle.len() <= hay.len(),
            k <= needle@.len(),
            forall|j: int| 0 <= j < k ==> hay@[i + j] == needle@[j],
        decreases needle@.len() - k,
    {
        if hay[i + k] != needle[k] {
            assert(hay@.subrange(i as int, i + needle@.len())[k as int] != needle@[k as int]);
            return false;
        }
        k = k + 1;
    }
    assert(hay@.subrange(i as int, i + needle@.len()) =~= needle@);
    true
}

/// Whether `needle` occurs in `hay`.
pub fn contains_chars(hay: &Vec<char>, needle: &Vec<char>) -> (b: bool)
    ensures
        b == contains_seq(hay@, needle@),
{
    if needle.len() > hay.len() {
        return false;
    }
    let last = hay.len() - needle.len();
    let mut i: usize = 0;
    while i < last
        invariant
            last + needle.len() == hay.len(),
            i <= last,
            forall|j: int| 0 <= j < i ==> !occurs_at(hay@, needle@, j),
        decreases last - i,
    {
        if matches_at(hay, needle, i) {
            return true;
        }
        i = i + 1;
    }
    matches_at(hay, needle, last)
}

/// Whether `s` begins with `prefix`.
pub open spec fn starts_with(s: Seq<char>, prefix: Seq<char>) -> bool {
    prefix.len() <= s.len() && s.subrange(0, prefix.len() as int) == prefix
}

/// Whether the characters of `v` begin with those of `prefix`.
pub fn starts_with_chars(v: &Vec<char>, prefix: &Vec<char>) -> (b: bool)
    ensures
        b == starts_with(v@, prefix@),
{
    if prefix.len() > v.len() {
        return false;
    }
    matches_at(v, prefix, 0)
}

/// The lower-case form of a string as `str::to_lowercase` gives it (Unicode
/// case mapping, which may change the length).
pub uninterp spec fn lowercase(s: Seq<char>) -> Seq<char>;

/// `str::to_lowercase` from std. The contract names the result, a function
/// of the characters alone, and says one more thing the documentation gives:
/// each character is mapped in turn to one or more characters, so the result
/// is empty exactly when the text is.
#[verifier::external_body]
pub(crate) fn to_lowercase(s: &str) -> (r: String)
    ensures
        r@ == lowercase(s@),
        (s@.len() == 0) == (r@.len() == 0),
{
    s.to_lowercase()
}


/// Whether two string slices hold the same characters.
pub fn same_text(a: &str, b: &str) -> (r: bool)
    ensures
        r == (a@ == b@),
{
    let va = chars_of(a);
    let vb = chars_of(b);
    same_chars(&va, &vb)
}

/// Whether two character vectors are equal.
pub fn same_chars(a: &Vec<char>, b: &Vec<char>) -> (r: bool)
    ensures
        r == (a@ == b@),
{
    if a.len() != b.len() {
        return false;
    }
    let r = matches_at(a, b, 0);
    assert(a@.subrange(0, b@.len() as int) == a@);
    r
}

/// The number of characters before the first line feed of `s` (all of them
/// when there is none).
pub open spec fn line_end(s: Seq<char>) -> nat
    decreases s.len(),
{
    if s.len() == 0 || s[0] == '\n' {
        0
    } else {
        1 + line_end(s.drop_first())
    }
}

/// `s` without one carriage return at its end.
pub open spec fn strip_cr(s: Seq<char>) -> Seq<char> {
    if s.len() > 0 && s.last() == '\r' {
        s.drop_last()
    } else {
        s
    }
}

/// The lines of `s` as `str::lines` gives them: split at each line feed, a
/// carriage return before the line feed dropped, no empty line after a final
/// line feed.
pub open spec fn lines(s: Seq<char>) -> Seq<Seq<char>>
    decreases s.len(),
{
    if s.len() == 0 {
        Seq::empty()
    } else if line_end(s) >= s.len() {
        seq![s]
    } else {
        seq![strip_cr(s.take(line_end(s) as int))] + lines(s.skip(line_end(s) as int + 1))
    }
}

proof fn lemma_line_end(s: Seq<char>, i: int)
    requires
        0 <= i <= line_end(s),
    ensures
        line_end(s) <= s.len(),
        i < line_end(s) ==> s[i] != '\n',
        line_end(s) < s.len() ==> s[line_end(s) as int] == '\n',
    decreases s.len(),
{
    if s.len() > 0 && s[0] != '\n' {
        if i > 0 {
            lemma_line_end(s.drop_first(), i - 1);
        } else {
            lemma_line_end(s.drop_first(), 0);
        }
    }
}

proof fn lemma_line_end_at(s: Seq<char>, k: int)
    requires
        0 <= k <= s.len(),
        forall|j: int| 0 <= j < k ==> #[trigger] s[j] != '\n',
        k == s.len() || s[k] == '\n',
    ensures
        line_end(s) == k,
    decreases k,
{
    if k > 0 {
        assert forall|j: int| 0 <= j < k - 1 implies #[trigger] s.drop_first()[j] != '\n' by {
            assert(s.drop_first()[j] == s[j + 1]);
        }
        if k < s.len() {
            assert(s.drop_first()[k - 1] == s[k]);
        }
        lemma_line_end_at(s.drop_first(), k - 1);
    }
}

/// The lines of a text, as `str::lines` splits it.
pub fn split_lines(text: &Vec<char>) -> (r: Vec<Vec<char>>)
    ensures
        r@.len() == lines(text@).len(),
        forall|i: int| 0 <= i < r@.len() ==> (#[trigger] r@[i])@ == lines(text@)[i],
{
    let mut out: Vec<Vec<char>> = Vec::new();
    let mut pos: usize = 0;
    let ghost whole = text@;
    proof {
        assert(whole.skip(0) == whole);
    }
    while pos < text.len()
        invariant
            pos <= text@.len(),
            whole == text@,
            lines(whole) == out@.map_values(|v: Vec<char>| v@) + lines(whole.skip(pos as int)),
        decreases text@.len() - pos,
    {
        let ghost rest = whole.skip(pos as int);
        let mut end: usize = pos;
        while end < text.len() && text[end] != '\n'
            invariant
                pos <= end <= text@.len(),
                forall|j: int| pos <= j < end ==> text@[j] != '\n',
            decreases text@.len() - end,
        {
            end = end + 1;
        }
        proof {
            assert forall|j: int| 0 <= j < end - pos implies #[trigger] rest[j] != '\n' by {
                assert(rest[j] == text@[pos + j]);
            }
            if end < text.len() {
                assert(rest[end - pos] == text@[end as int]);
            }
            lemma_line_end_at(rest, end - pos);
        }
        let mut stop = end;
        if stop > pos && text[stop - 1] == '\r' && end < text.len() {
            stop = stop - 1;
        }
        let line = slice_chars(text, pos, stop);
        let ghost before = out@;
        out.push(line);
        proof {
            if end < text.len() {
                assert(rest.take(end - pos) == whole.subrange(pos as int, end as int));
                assert(strip_cr(rest.take(end - pos)) == line@);
                assert(rest.skip(end - pos + 1) == whole.skip(end + 1));
                assert(lines(rest) == seq![line@] + lines(whole.skip(end + 1)));
            } else {
                assert(rest == line@);
                assert(lines(rest) == seq![line@]);
            }
            assert(out@.map_values(|v: Vec<char>| v@) == before.map_values(|v: Vec<char>| v@).push(
                line@,
            ));
        }
        pos = if end < text.len() {
            end + 1
        } else {
            end
        };
        proof {
            if end >= text.len() {
                assert(whole.skip(pos as int) =~= Seq::<char>::empty());
            }
        }
    }
    proof {
        assert(whole.skip(pos as int) =~= Seq::<char>::empty());
        assert(lines(whole) == out@.map_values(|v: Vec<char>| v@));
        assert forall|i: int| 0 <= i < out@.len() implies (#[trigger] out@[i])@ == lines(whole)[i] by {
            assert(out@.map_values(|v: Vec<char>| v@)[i] == out@[i]@);
        }
    }
    out
}

/// The characters `v[from..to]`.
pub fn slice_chars(v: &Vec<char>, from: usize, to: usize) -> (r: Vec<char>)
    requires
        from <= to <= v@.len(),
    ensures
        r@ == v@.subrange(from as int, to as int),
{
    let mut r: Vec<char> = Vec::new();
    let mut i = from;
    while i < to
        invariant
            from <= i <= to <= v@.len(),
            r@ == v@.subrange(from as int, i as int),
        decreases to - i,
    {
        r.push(v[i]);
        i = i + 1;
        assert(r@ == v@.subrange(from as int, i as int));
    }
    r
}

/// Whether `c` is an ASCII digit.
pub open spec fn is_digit(c: char) -> bool {
    '0' <= c <= '9'
}

/// The number of ASCII digits at the start of `s`.
pub open spec fn digits_len(s: Seq<char>) -> nat
    decreases s.len(),
{
    if s.len() > 0 && is_digit(s[0]) {
        1 + digits_len(s.drop_first())
    } else {
        0
    }
}

/// The value of a string of decimal digits.
pub open spec fn digits_value(s: Seq<char>) -> nat
    decreases s.len(),
{
    if s.len() == 0 {
        0
    } else {
        digits_value(s.drop_last()) * 10 + (s.last() as nat - 48) as nat
    }
}

pub proof fn lemma_digits_len(s: Seq<char>, i: int)
    requires
        0 <= i <= digits_len(s),
    ensures
        digits_len(s) <= s.len(),
        i < digits_len(s) ==> is_digit(s[i]),
        digits_len(s) < s.len() ==> !is_digit(s[digits_len(s) as int]),
    decreases s.len(),
{
    if s.len() > 0 && is_digit(s[0]) {
        if i > 0 {
            lemma_digits_len(s.drop_first(), i - 1);
        } else {
            lemma_digits_len(s.drop_first(), 0);
        }
    }
}

pub proof fn lemma_digits_len_prefix(s: Seq<char>, k: int)
    requires
        0 <= k <= s.len(),
        forall|j: int| 0 <= j < k ==> is_digit(#[trigger] s[j]),
        k == s.len() || !is_digit(s[k]),
    ensures
        digits_len(s) == k,
    decreases k,
{
    if k > 0 {
        assert forall|j: int| 0 <= j < k - 1 implies is_digit(#[trigger] s.drop_first()[j]) by {
            assert(s.drop_first()[j] == s[j + 1]);
        }
        if k < s.len() {
            assert(s.drop_first()[k - 1] == s[k]);
        }
        lemma_digits_len_prefix(s.drop_first(), k - 1);
    }
}


/// The integer a text denotes as `i64::from_str` reads it: an optional `+` or
/// `-`, then one or more decimal digits and nothing else.
pub open spec fn int_value(s: Seq<char>) -> Option<int> {
    let signed = s.len() > 0 && (s[0] == '-' || s[0] == '+');
    let digits = if signed {
        s.skip(1)
    } else {
        s
    };
    if digits.len() == 0 || digits_len(digits) != digits.len() {
        None
    } else if signed && s[0] == '-' {
        Some(-digits_value(digits))
    } else {
        Some(digits_value(digits) as int)
    }
}

/// The `i64` a text denotes, when it denotes one in range.
pub open spec fn i64_value(s: Seq<char>) -> Option<i64> {
    match int_value(s) {
        Some(v) => if i64::MIN <= v <= i64::MAX {
            Some(v as i64)
        } else {
            None
        },
        None => None,
    }
}

/// Reads an `i64` as `str::parse::<i64>` does.
pub fn parse_i64(v: &Vec<char>) -> (r: Option<i64>)
    ensures
        r == i64_value(v@),
{
    let signed = v.len() > 0 && (v[0] == '-' || v[0] == '+');
    let neg = signed && v[0] == '-';
    let start: usize = if signed {
        1
    } else {
        0
    };
    let ghost digits = v@.skip(start as int);
    assert(v@.skip(0) == v@);
    assert(digits.len() == v@.len() - start);
    if start == v.len() {
        assert(digits.len() == 0);
        return None;
    }
    let mut i = start;
    let mut value: u128 = 0;
    let mut over = false;
    let limit: u128 = 9223372036854775808u128;
    while i < v.len()
        invariant
            start <= i <= v@.len(),
            digits == v@.skip(start as int),
            signed == (v@.len() > 0 && (v@[0] == '-' || v@[0] == '+')),
            start == (if signed { 1int } else { 0int }),
            digits == (if signed { v@.skip(1) } else { v@ }),
            limit == 9223372036854775808u128,
            forall|j: int| 0 <= j < i - start ==> is_digit(#[trigger] digits[j]),
            over <==> digits_value(digits.subrange(0, i - start)) > limit,
            !over ==> value == digits_value(digits.subrange(0, i - start)),
        decreases v@.len() - i,
    {
        let c = v[i];
        assert(digits[i - start] == c);
        if !('0' <= c && c <= '9') {
            proof {
                assert(!is_digit(digits[i - start]));
                lemma_digits_len_prefix(digits, i - start);
                assert(digits_len(digits) < digits.len());
            }
            return None;
        }
        let ghost prev = digits.subrange(0, i - start);
        assert(digits.subrange(0, i + 1 - start).drop_last() == prev);
        assert(digits.subrange(0, i + 1 - start).last() == c);
        if !over {
            value = value * 10 + (c as u32 - 48) as u128;
            if value > limit {
                over = true;
            }
        }
        i = i + 1;
    }
    proof {
        lemma_digits_len_prefix(digits, i - start);
        assert(digits.subrange(0, i - start) == digits);
    }
    if over {
        return None;
    }
    if neg {
        if value == limit {
            Some(i64::MIN)
        } else {
            Some(-(value as i64))
        }
    } else if value > 9223372036854775807u128 {
        None
    } else {
        Some(value as i64)
    }
}


/// The texts joined with `sep` between each two.
pub open spec fn joined(parts: Seq<Seq<char>>, sep: Seq<char>) -> Seq<char>
    decreases parts.len(),
{
    if parts.len() == 0 {
        Seq::empty()
    } else if parts.len() == 1 {
        parts[0]
    } else {
        joined(parts.drop_last(), sep) + sep + parts.last()
    }
}

/// Appends the texts joined with `sep`.
pub fn push_joined(out: &mut String, parts: &Vec<String>, sep: &str)
    ensures
        final(out)@ == old(out)@ + joined(parts@.map_values(|p: String| p@), sep@),
{
    let ghost views = parts@.map_values(|p: String| p@);
    let ghost start = out@;
    let mut i: usize = 0;
    proof {
        assert(views.take(0) =~= Seq::<Seq<char>>::empty());
    }
    while i < parts.len()
        invariant
            i <= parts@.len(),
            views == parts@.map_values(|p: String| p@),
            out@ == start + joined(views.take(i as int), sep@),
        decreases parts@.len() - i,
    {
        if i > 0 {
            push_str(out, sep);
        }
        push_str(out, parts[i].as_str());
        proof {
            assert(views.take(i + 1).drop_last() == views.take(i as int));
            assert(views.take(i + 1).last() == parts@[i as int]@);
            if i == 0 {
                assert(views.take(1) =~= seq![parts@[0]@]);
            }
        }
        i = i + 1;
    }
    assert(views.take(parts@.len() as int) == views);
}


/// The number of characters before the first whitespace of `s`.
pub open spec fn word_len(s: Seq<char>) -> nat
    decreases s.len(),
{
    if s.len() == 0 || is_ws(s[0]) {
        0
    } else {
        1 + word_len(s.drop_first())
    }
}

/// The first whitespace-separated word of `s`, as `split_whitespace` yields it.
pub open spec fn first_word(s: Seq<char>) -> Option<Seq<char>> {
    let t = trim_start(s);
    if t.len() == 0 {
        None
    } else {
        Some(t.take(word_len(t) as int))
    }
}

/// What follows the first word of `s`.
pub open spec fn after_first_word(s: Seq<char>) -> Seq<char> {
    let t = trim_start(s);
    t.skip(word_len(t) as int)
}

proof fn lemma_word_len(s: Seq<char>, k: int)
    requires
        0 <= k <= s.len(),
        forall|j: int| 0 <= j < k ==> !is_ws(#[trigger] s[j]),
        k == s.len() || is_ws(s[k]),
    ensures
        word_len(s) == k,
    decreases k,
{
    if k > 0 {
        assert forall|j: int| 0 <= j < k - 1 implies !is_ws(#[trigger] s.drop_first()[j]) by {
            assert(s.drop_first()[j] == s[j + 1]);
        }
        if k < s.len() {
            assert(s.drop_first()[k - 1] == s[k]);
        }
        lemma_word_len(s.drop_first(), k - 1);
    }
}

proof fn lemma_trim_start_skip(s: Seq<char>, k: int)
    requires
        0 <= k <= s.len(),
        forall|j: int| 0 <= j < k ==> is_ws(#[trigger] s[j]),
        k == s.len() || !is_ws(s[k]),
    ensures
        trim_start(s) == s.skip(k),
    decreases k,
{
    if k > 0 {
        assert forall|j: int| 0 <= j < k - 1 implies is_ws(#[trigger] s.drop_first()[j]) by {
            assert(s.drop_first()[j] == s[j + 1]);
        }
        if k < s.len() {
            assert(s.drop_first()[k - 1] == s[k]);
        }
        lemma_trim_start_skip(s.drop_first(), k - 1);
        assert(s.drop_first().skip(k - 1) == s.skip(k));
    } else {
        assert(s.skip(0) == s);
    }
}

/// Finds the first word of `v[from..]`: its bounds, or none when only
/// whitespace is left.
pub fn next_word(v: &Vec<char>, from: usize) -> (r: Option<(usize, usize)>)
    requires
        from <= v@.len(),
    ensures
        match r {
            Some((a, b)) => from <= a < b <= v@.len() && first_word(v@.skip(from as int)) == Some(
                v@.subrange(a as int, b as int),
            ) && after_first_word(v@.skip(from as int)) == v@.skip(b as int),
            None => first_word(v@.skip(from as int)) is None,
        },
{
    let ghost s = v@.skip(from as int);
    let mut a = from;
    while a < v.len() && is_whitespace(v[a])
        invariant
            from <= a <= v@.len(),
            forall|j: int| from <= j < a ==> is_ws(#[trigger] v@[j]),
        decreases v@.len() - a,
    {
        a = a + 1;
    }
    proof {
        assert forall|j: int| 0 <= j < a - from implies is_ws(#[trigger] s[j]) by {
            assert(s[j] == v@[from + j]);
        }
        if a < v.len() {
            assert(s[a - from] == v@[a as int]);
        }
        lemma_trim_start_skip(s, a - from);
        assert(s.skip(a - from) == v@.skip(a as int));
    }
    if a == v.len() {
        return None;
    }
    let mut b = a;
    while b < v.len() && !is_whitespace(v[b])
        invariant
            a <= b <= v@.len(),
            forall|j: int| a <= j < b ==> !is_ws(#[trigger] v@[j]),
        decreases v@.len() - b,
    {
        b = b + 1;
    }
    proof {
        let t = v@.skip(a as int);
        assert forall|j: int| 0 <= j < b - a implies !is_ws(#[trigger] t[j]) by {
            assert(t[j] == v@[a + j]);
        }
        if b < v.len() {
            assert(t[b - a] == v@[b as int]);
        }
        lemma_word_len(t, b - a);
        assert(t.take(b - a) == v@.subrange(a as int, b as int));
        assert(t.skip(b - a) == v@.skip(b as int));
    }
    Some((a, b))
}

} // verus!
