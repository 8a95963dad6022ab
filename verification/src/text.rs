//! Text building: decimal numbers, column padding and the few string
//! operations that messages and tables are made of.

use vstd::prelude::*;

verus! {

/// `String::push`: the character is appended to the string.
pub assume_specification[ String::push ](s: &mut String, c: char)
    ensures
        final(s)@ == old(s)@.push(c),
;

/// The decimal digit `d`, for `d < 10`.
pub open spec fn digit(d: nat) -> char {
    (48 + d) as char
}

/// `n` in decimal, without leading zeros.
pub open spec fn decimal(n: nat) -> Seq<char>
    decreases n,
{
    if n < 10 {
        seq![digit(n)]
    } else {
        decimal(n / 10).push(digit(n % 10))
    }
}

/// The hexadecimal digit `d`, for `d < 16`.
pub open spec fn hex_digit(d: u64) -> char {
    if d < 10 {
        (48 + d) as char
    } else {
        (87 + d) as char
    }
}

/// `n` in sixteen hexadecimal digits.
pub open spec fn hex(n: u64) -> Seq<char> {
    Seq::new(16, |i: int| hex_digit((n >> ((60 - 4 * i) as u64)) & 15))
}

/// `n` spaces.
pub open spec fn blanks(n: nat) -> Seq<char> {
    Seq::new(n, |i: int| ' ')
}

/// The text filled up with spaces on its right to `width` characters.
pub open spec fn left_aligned(text: Seq<char>, width: nat) -> Seq<char> {
    if text.len() < width {
        text + blanks((width - text.len()) as nat)
    } else {
        text
    }
}

/// The text filled up with spaces on its left to `width` characters.
pub open spec fn right_aligned(text: Seq<char>, width: nat) -> Seq<char> {
    if text.len() < width {
        blanks((width - text.len()) as nat) + text
    } else {
        text
    }
}

/// Appends `n` in decimal.
pub fn push_decimal(out: &mut String, n: u128)
    ensures
        final(out)@ == old(out)@ + decimal(n as nat),
    decreases n,
{
    if n >= 10 {
        push_decimal(out, n / 10);
    }
    let d: u8 = 48 + (n % 10) as u8;
    out.push(d as char);
    assert(out@ =~= old(out)@ + decimal(n as nat));
}

/// `n` in decimal.
pub fn decimal_text(n: u128) -> (r: String)
    ensures
        r@ == decimal(n as nat),
{
    let mut out: String = String::new();
    push_decimal(&mut out, n);
    assert(out@ =~= decimal(n as nat));
    out
}

/// Appends `n` in sixteen hexadecimal digits.
pub fn push_hex(out: &mut String, n: u64)
    ensures
        final(out)@ == old(out)@ + hex(n),
{
    let mut i: u64 = 0;
    while i < 16
        invariant
            i <= 16,
            out@ == old(out)@ + hex(n).take(i as int),
        decreases 16 - i,
    {
        let shift: u64 = 60 - 4 * i;
        let d: u64 = (n >> shift) & 15;
        assert(d < 16) by (bit_vector)
            requires
                d == (n >> shift) & 15,
        ;
        let c: u8 = if d < 10 {
            48 + d as u8
        } else {
            87 + d as u8
        };
        out.push(c as char);
        assert(hex(n).take(i + 1) =~= hex(n).take(i as int).push(c as char));
        i += 1;
        assert(out@ =~= old(out)@ + hex(n).take(i as int));
    }
    assert(hex(n).take(16) =~= hex(n));
}

/// Different numbers have different hexadecimal digits.
pub proof fn lemma_hex_injective(a: u64, b: u64)
    requires
        hex(a) == hex(b),
    ensures
        a == b,
{
    assert forall|i: int| 0 <= i < 16 implies (a >> (#[trigger] (60 - 4 * i) as u64)) & 15 == (b
        >> ((60 - 4 * i) as u64)) & 15 by {
        let s = (60 - 4 * i) as u64;
        let (x, y) = ((a >> s) & 15, (b >> s) & 15);
        assert(x < 16 && y < 16) by (bit_vector)
            requires
                x == (a >> s) & 15,
                y == (b >> s) & 15,
        ;
        assert(hex(a)[i] == hex_digit(x) && hex(b)[i] == hex_digit(y));
        assert(hex_digit(x) as int == (if x < 10 {
            48 + x
        } else {
            87 + x
        }));
        assert(hex_digit(y) as int == (if y < 10 {
            48 + y
        } else {
            87 + y
        }));
    }
    assert forall|s: u64| #![trigger a >> s] s <= 60 && s % 4 == 0 implies (a >> s) & 15 == (b >> s)
        & 15 by {
        let i = (60 - s as int) / 4;
        assert((60 - 4 * i) as u64 == s);
    }
    assert(a == b) by (bit_vector)
        requires
            (a >> 60) & 15 == (b >> 60) & 15,
            (a >> 56) & 15 == (b >> 56) & 15,
            (a >> 52) & 15 == (b >> 52) & 15,
            (a >> 48) & 15 == (b >> 48) & 15,
            (a >> 44) & 15 == (b >> 44) & 15,
            (a >> 40) & 15 == (b >> 40) & 15,
            (a >> 36) & 15 == (b >> 36) & 15,
            (a >> 32) & 15 == (b >> 32) & 15,
            (a >> 28) & 15 == (b >> 28) & 15,
            (a >> 24) & 15 == (b >> 24) & 15,
            (a >> 20) & 15 == (b >> 20) & 15,
            (a >> 16) & 15 == (b >> 16) & 15,
            (a >> 12) & 15 == (b >> 12) & 15,
            (a >> 8) & 15 == (b >> 8) & 15,
            (a >> 4) & 15 == (b >> 4) & 15,
            (a >> 0) & 15 == (b >> 0) & 15,
    ;
}

/// Appends `n` spaces.
pub fn push_blanks(out: &mut String, n: usize)
    ensures
        final(out)@ == old(out)@ + blanks(n as nat),
{
    let mut i: usize = 0;
    while i < n
        invariant
            i <= n,
            out@ == old(out)@ + blanks(i as nat),
        decreases n - i,
    {
        out.push(' ');
        i += 1;
        assert(out@ =~= old(out)@ + blanks(i as nat));
    }
}

/// Appends the text, left-aligned in a column of `width` characters.
pub fn push_left(out: &mut String, text: &str, width: usize)
    ensures
        final(out)@ == old(out)@ + left_aligned(text@, width as nat),
{
    let len: usize = text.unicode_len();
    out.append(text);
    if len < width {
        push_blanks(out, width - len);
    }
    assert(out@ =~= old(out)@ + left_aligned(text@, width as nat));
}

/// Appends the text, right-aligned in a column of `width` characters.
pub fn push_right(out: &mut String, text: &str, width: usize)
    ensures
        final(out)@ == old(out)@ + right_aligned(text@, width as nat),
{
    let len: usize = text.unicode_len();
    if len < width {
        push_blanks(out, width - len);
    }
    out.append(text);
    assert(out@ =~= old(out)@ + right_aligned(text@, width as nat));
}

/// Whether two byte strings are the same.
pub fn same_bytes(a: &[u8], b: &[u8]) -> (r: bool)
    ensures
        r == (a@ == b@),
{
    if a.len() != b.len() {
        return false;
    }
    let mut i: usize = 0;
    while i < a.len()
        invariant
            i <= a@.len() == b@.len(),
            forall|j: int| 0 <= j < i ==> a@[j] == b@[j],
        decreases a@.len() - i,
    {
        if a[i] != b[i] {
            return false;
        }
        i += 1;
    }
    assert(a@ =~= b@);
    true
}

/// Whether two texts are the same.
pub fn same(a: &str, b: &str) -> (r: bool)
    ensures
        r == (a@ == b@),
{
    proof {
        vstd::utf8::encode_utf8_decode_utf8(a@);
        vstd::utf8::encode_utf8_decode_utf8(b@);
    }
    same_bytes(a.as_bytes(), b.as_bytes())
}

/// Whether a character has the Unicode property `White_Space`.
pub open spec fn white(c: char) -> bool {
    ||| '\u{9}' <= c <= '\u{d}'
    ||| c == ' '
    ||| c == '\u{85}'
    ||| c == '\u{a0}'
    ||| c == '\u{1680}'
    ||| '\u{2000}' <= c <= '\u{200a}'
    ||| c == '\u{2028}'
    ||| c == '\u{2029}'
    ||| c == '\u{202f}'
    ||| c == '\u{205f}'
    ||| c == '\u{3000}'
}

/// The text without the white space it begins with.
pub open spec fn trimmed_start(s: Seq<char>) -> Seq<char>
    decreases s.len(),
{
    if s.len() > 0 && white(s[0]) {
        trimmed_start(s.skip(1))
    } else {
        s
    }
}

/// The text without the white space it ends with.
pub open spec fn trimmed_end(s: Seq<char>) -> Seq<char>
    decreases s.len(),
{
    if s.len() > 0 && white(s.last()) {
        trimmed_end(s.drop_last())
    } else {
        s
    }
}

/// The text without the white space around it.
pub open spec fn trimmed(s: Seq<char>) -> Seq<char> {
    trimmed_end(trimmed_start(s))
}

/// Where `c` first occurs in `s` at `from` or later; the length where it does
/// not.
pub open spec fn find<T>(s: Seq<T>, c: T, from: int) -> int
    decreases s.len() - from,
{
    if from >= s.len() {
        s.len() as int
    } else if s[from] == c {
        from
    } else {
        find(s, c, from + 1)
    }
}

/// The pieces between the separators.
pub open spec fn pieces(s: Seq<char>, separator: char) -> Seq<Seq<char>>
    decreases s.len(),
{
    let i = find(s, separator, 0);
    if 0 <= i < s.len() {
        seq![s.take(i)] + pieces(s.skip(i + 1), separator)
    } else {
        seq![s]
    }
}

/// The number that decimal digits write.
pub open spec fn digits_value(s: Seq<char>) -> nat
    decreases s.len(),
{
    if s.len() == 0 {
        0
    } else {
        10 * digits_value(s.drop_last()) + (s.last() as nat - 48) as nat
    }
}

/// Whether a text is one or more decimal digits.
pub open spec fn all_digits(s: Seq<char>) -> bool {
    s.len() > 0 && forall|i: int| 0 <= i < s.len() ==> '0' <= #[trigger] s[i] <= '9'
}

/// A text without the plus sign it may begin with.
pub open spec fn unsigned_part(s: Seq<char>) -> Seq<char> {
    if s.len() > 0 && s[0] == '+' {
        s.skip(1)
    } else {
        s
    }
}

/// The unsigned integer that a text stands for: decimal digits, after one
/// plus sign at most, with a value that does not exceed `max`.
pub open spec fn number(s: Seq<char>, max: nat) -> Option<nat> {
    let digits = unsigned_part(s);
    if all_digits(digits) && digits_value(digits) <= max {
        Some(digits_value(digits))
    } else {
        None
    }
}

/// The characters of a text.
pub fn chars(s: &str) -> (r: Vec<char>)
    ensures
        r@ == s@,
{
    let mut out: Vec<char> = Vec::new();
    for c in iter: s.chars()
        invariant
            iter.seq() == s@,
            out@ == iter.seq().take(iter.index() as int),
    {
        out.push(c);
    }
    out
}

/// The text made of the characters.
pub fn from_chars(chars: &[char]) -> (r: String)
    ensures
        r@ == chars@,
{
    let mut out: String = String::new();
    let mut i: usize = 0;
    assert(out@ =~= chars@.take(0));
    while i < chars.len()
        invariant
            i <= chars@.len(),
            out@ == chars@.take(i as int),
        decreases chars@.len() - i,
    {
        out.push(chars[i]);
        i += 1;
        assert(out@ =~= chars@.take(i as int));
    }
    assert(chars@.take(i as int) =~= chars@);
    out
}

/// Whether a character is white space.
pub fn is_white(c: char) -> (r: bool)
    ensures
        r == white(c),
{
    ('\u{9}' <= c && c <= '\u{d}') || c == ' ' || c == '\u{85}' || c == '\u{a0}' || c == '\u{1680}'
        || ('\u{2000}' <= c && c <= '\u{200a}') || c == '\u{2028}' || c == '\u{2029}' || c
        == '\u{202f}' || c == '\u{205f}' || c == '\u{3000}'
}

/// Removes the white space around a text.
pub fn trim<'a>(s: &'a [char]) -> (r: &'a [char])
    ensures
        r@ == trimmed(s@),
{
    let n: usize = s.len();
    let mut lo: usize = 0;
    assert(s@.skip(0) =~= s@);
    while lo < n && is_white(s[lo])
        invariant
            lo <= n == s@.len(),
            trimmed_start(s@) == trimmed_start(s@.skip(lo as int)),
        decreases n - lo,
    {
        assert(s@.skip(lo as int).skip(1) =~= s@.skip(lo + 1));
        lo += 1;
    }
    assert(trimmed_start(s@) == s@.skip(lo as int));
    let mut hi: usize = n;
    assert(s@.subrange(lo as int, n as int) =~= s@.skip(lo as int));
    while hi > lo && is_white(s[hi - 1])
        invariant
            lo <= hi <= n == s@.len(),
            trimmed(s@) == trimmed_end(s@.subrange(lo as int, hi as int)),
        decreases hi - lo,
    {
        assert(s@.subrange(lo as int, hi as int).drop_last() =~= s@.subrange(
            lo as int,
            hi - 1,
        ));
        hi -= 1;
    }
    &s[lo..hi]
}

/// Cuts a text at the separators.
pub fn split(s: &[char], separator: char) -> (r: Vec<Vec<char>>)
    ensures
        r@.len() == pieces(s@, separator).len(),
        forall|i: int| 0 <= i < r@.len() ==> (#[trigger] r@[i])@ == pieces(s@, separator)[i],
{
    let n: usize = s.len();
    let mut out: Vec<Vec<char>> = Vec::new();
    let mut piece: Vec<char> = Vec::new();
    let mut start: usize = 0;
    let mut i: usize = 0;
    let ghost all = pieces(s@, separator);
    assert(s@.skip(0) =~= s@);
    while i < n
        invariant
            start <= i <= n == s@.len(),
            all == pieces(s@, separator),
            piece@ == s@.subrange(start as int, i as int),
            find(s@.skip(start as int), separator, 0) == find(
                s@.skip(start as int),
                separator,
                i - start,
            ),
            all.len() == out@.len() + pieces(s@.skip(start as int), separator).len(),
            forall|k: int| 0 <= k < out@.len() ==> (#[trigger] out@[k])@ == all[k],
            forall|k: int|
                0 <= k < pieces(s@.skip(start as int), separator).len() ==> #[trigger] pieces(
                    s@.skip(start as int),
                    separator,
                )[k] == all[out@.len() + k],
        decreases n - i,
    {
        let c: char = s[i];
        let ghost tail = s@.skip(start as int);
        assert(tail[i - start] == c);
        if c == separator {
            proof {
                let rest = s@.skip(i + 1);
                assert(tail.skip(i - start + 1) =~= rest);
                assert(tail.take(i - start) =~= piece@);
                let parts = pieces(tail, separator);
                assert(parts == seq![piece@] + pieces(rest, separator));
                assert(parts[0] == piece@);
                assert forall|k: int| 0 <= k < pieces(rest, separator).len() implies #[trigger] pieces(
                    rest,
                    separator,
                )[k] == all[out@.len() + 1 + k] by {
                    assert(parts[k + 1] == pieces(rest, separator)[k]);
                }
            }
            out.push(piece);
            piece = Vec::new();
            start = i + 1;
        } else {
            piece.push(c);
        }
        i += 1;
        assert(piece@ =~= s@.subrange(start as int, i as int));
    }
    proof {
        let tail = s@.skip(start as int);
        assert(find(tail, separator, 0) == tail.len());
        assert(piece@ =~= tail);
        assert(pieces(tail, separator) == seq![tail]);
        assert(pieces(tail, separator)[0] == tail);
    }
    out.push(piece);
    out
}

/// Further digits do not make a number smaller.
proof fn lemma_digits_grow(s: Seq<char>, n: int)
    requires
        0 <= n <= s.len(),
    ensures
        digits_value(s.take(n)) <= digits_value(s),
    decreases s.len() - n,
{
    if n == s.len() {
        assert(s.take(n) =~= s);
    } else {
        assert(s.take(n + 1).drop_last() =~= s.take(n));
        lemma_digits_grow(s, n + 1);
    }
}

/// Reads an unsigned integer.
pub fn parse_number(s: &[char], max: u64) -> (r: Option<u64>)
    ensures
        match r {
            Some(v) => number(s@, max as nat) == Some(v as nat),
            None => number(s@, max as nat) is None,
        },
{
    let n: usize = s.len();
    let mut i: usize = 0;
    if n > 0 && s[0] == '+' {
        i = 1;
    }
    let ghost from = i as int;
    let ghost digits = unsigned_part(s@);
    assert(digits =~= s@.skip(from));
    if i >= n {
        return None;
    }
    let mut value: u64 = 0;
    while i < n
        invariant
            0 <= from <= i <= n == s@.len(),
            from < n,
            digits == unsigned_part(s@),
            digits == s@.skip(from),
            forall|k: int| 0 <= k < i - from ==> '0' <= #[trigger] digits[k] <= '9',
            value == digits_value(digits.take(i - from)),
            value <= max,
        decreases n - i,
    {
        let c: char = s[i];
        assert(digits[i - from] == c);
        if c < '0' || '9' < c {
            return None;
        }
        let d: u32 = c as u32 - 48;
        let wide: u128 = value as u128 * 10 + d as u128;
        proof {
            assert(digits.take(i - from + 1).drop_last() =~= digits.take(i - from));
            assert(wide == digits_value(digits.take(i - from + 1)));
            lemma_digits_grow(digits, i - from + 1);
        }
        if wide > max as u128 {
            return None;
        }
        value = wide as u64;
        i += 1;
    }
    assert(digits.take(n - from) =~= digits);
    Some(value)
}

/// Filling up to a width keeps the text whole, at the left or at the right, adds
/// nothing but spaces, and adds none to a text that is as wide or wider.
pub proof fn law_alignment(text: Seq<char>, width: nat, i: int)
    ensures
        left_aligned(text, width).len() == (if text.len() < width {
            width
        } else {
            text.len()
        }),
        right_aligned(text, width).len() == left_aligned(text, width).len(),
        left_aligned(text, width).take(text.len() as int) == text,
        right_aligned(text, width).skip(right_aligned(text, width).len() - text.len()) == text,
        text.len() <= i < width ==> left_aligned(text, width)[i] == ' ',
        0 <= i < width - text.len() ==> right_aligned(text, width)[i] == ' ',
{
    assert(left_aligned(text, width).take(text.len() as int) =~= text);
    assert(right_aligned(text, width).skip(right_aligned(text, width).len() - text.len()) =~= text);
}

/// Trimming takes white space off both ends and nothing else: what is left is a
/// part of the text that neither begins nor ends with white space, and all
/// around it is white space.
pub proof fn law_trimmed(s: Seq<char>) -> (r: (int, int))
    ensures
        0 <= r.0 <= r.1 <= s.len(),
        trimmed(s) == s.subrange(r.0, r.1),
        forall|i: int| 0 <= i < r.0 || r.1 <= i < s.len() ==> white(#[trigger] s[i]),
        r.0 < r.1 ==> !white(s[r.0]) && !white(s[r.1 - 1]),
{
    let from = lemma_trimmed_start(s);
    let rest = s.skip(from);
    let to = lemma_trimmed_end(rest);
    assert(rest.take(to) =~= s.subrange(from, from + to));
    assert forall|i: int| 0 <= i < from || from + to <= i < s.len() implies white(
        #[trigger] s[i],
    ) by {
        if from + to <= i {
            assert(s[i] == rest[i - from]);
        }
    }
    if to > 0 {
        assert(rest[0] == s[from] && rest[to - 1] == s[from + to - 1]);
        if from < s.len() && to > 0 {
            assert(trimmed_start(s) == rest);
        }
    }
    (from, from + to)
}

proof fn lemma_trimmed_start(s: Seq<char>) -> (from: int)
    ensures
        0 <= from <= s.len(),
        trimmed_start(s) == s.skip(from),
        forall|i: int| 0 <= i < from ==> white(#[trigger] s[i]),
        from < s.len() ==> !white(s[from]),
    decreases s.len(),
{
    if s.len() > 0 && white(s[0]) {
        let n = lemma_trimmed_start(s.skip(1));
        assert(s.skip(1).skip(n) =~= s.skip(n + 1));
        assert forall|i: int| 0 <= i < n + 1 implies white(#[trigger] s[i]) by {
            if i > 0 {
                assert(s.skip(1)[i - 1] == s[i]);
            }
        }
        n + 1
    } else {
        assert(s.skip(0) =~= s);
        0
    }
}

proof fn lemma_trimmed_end(s: Seq<char>) -> (to: int)
    ensures
        0 <= to <= s.len(),
        trimmed_end(s) == s.take(to),
        forall|i: int| to <= i < s.len() ==> white(#[trigger] s[i]),
        to > 0 ==> !white(s[to - 1]),
    decreases s.len(),
{
    if s.len() > 0 && white(s.last()) {
        let n = lemma_trimmed_end(s.drop_last());
        assert(s.drop_last().take(n) =~= s.take(n));
        assert forall|i: int| n <= i < s.len() implies white(#[trigger] s[i]) by {
            if i < s.len() - 1 {
                assert(s.drop_last()[i] == s[i]);
            }
        }
        n
    } else {
        assert(s.take(s.len() as int) =~= s);
        s.len() as int
    }
}

/// Which characters are white space.
pub proof fn law_white_space(c: char, r: bool)
    requires
        call_ensures(is_white, (c,), r),
    ensures
        r <==> c as u32 == 0x20 || 0x9 <= c as u32 <= 0xD || c as u32 == 0x85 || c as u32 == 0xA0 || c as u32
            == 0x1680 || 0x2000 <= c as u32 <= 0x200A || c as u32 == 0x2028 || c as u32 == 0x2029
            || c as u32 == 0x202F || c as u32 == 0x205F || c as u32 == 0x3000,
{
}

} // verus!
