//! Minimal matrix loader: `.npy` (v1/v2 header, `<f4`, C-order, 2-D) or raw
//! little-endian single precision with an explicit dimension. Data are told
//! apart by the `\x93NUMPY` magic, not by a file name. Elements are bit
//! patterns.

use vstd::prelude::*;
use crate::recall::args;
use crate::text;

verus! {

/// Element `i` of little-endian 32-bit words.
pub open spec fn word_at(bytes: Seq<u8>, i: int) -> u32 {
    (bytes[4 * i] + 0x100 * bytes[4 * i + 1] + 0x1_0000 * bytes[4 * i + 2] + 0x100_0000 * bytes[4 * i
        + 3]) as u32
}

/// The little-endian 32-bit words; up to three bytes at the end are left out.
pub open spec fn words(bytes: Seq<u8>) -> Seq<u32> {
    Seq::new(bytes.len() / 4, |i: int| word_at(bytes, i))
}

/// Where `pattern` first occurs in `s` at `from` or later, if it does.
pub open spec fn find_text(s: Seq<char>, pattern: Seq<char>, from: int) -> Option<int>
    decreases s.len() + 1 - from,
{
    if from + pattern.len() > s.len() {
        None
    } else if s.subrange(from, from + pattern.len()) == pattern {
        Some(from)
    } else {
        find_text(s, pattern, from + 1)
    }
}

/// Where a value ends: at the first comma or closing brace outside brackets,
/// scanning from `i` at bracket depth `depth`; the length where there is none.
pub open spec fn value_end(value: Seq<char>, i: int, depth: nat) -> int
    decreases value.len() - i,
{
    if i >= value.len() {
        value.len() as int
    } else {
        let c = value[i];
        if c == '(' || c == '[' {
            value_end(value, i + 1, depth + 1)
        } else if (c == ')' || c == ']') && depth > 0 {
            value_end(value, i + 1, (depth - 1) as nat)
        } else if (c == ',' || c == '}') && depth == 0 {
            i
        } else {
            value_end(value, i + 1, depth)
        }
    }
}

/// The text without the closing braces it ends with.
pub open spec fn unbraced(s: Seq<char>) -> Seq<char>
    decreases s.len(),
{
    if s.len() > 0 && s.last() == '}' {
        unbraced(s.drop_last())
    } else {
        s
    }
}

/// The value text after a key: from behind the colon to the value's end.
pub open spec fn entry_value(after: Seq<char>) -> Option<Seq<char>> {
    let colon = text::find(after, ':', 0);
    if colon >= after.len() {
        None
    } else {
        let value = text::trimmed_start(after.skip(colon + 1));
        let end = value_end(value, 0, 0);
        if end < value.len() {
            Some(text::trimmed(value.take(end)))
        } else {
            Some(text::trimmed(unbraced(text::trimmed_end(value))))
        }
    }
}

/// A key in quotation marks.
pub open spec fn in_quotes(key: Seq<char>, mark: char) -> Seq<char> {
    seq![mark] + key + seq![mark]
}

/// Raw text of a dictionary entry's value: of the first key in single
/// quotation marks, else of the first in double ones.
pub open spec fn dict_entry(header: Seq<char>, key: Seq<char>) -> Option<Seq<char>> {
    match find_text(header, in_quotes(key, '\''), 0) {
        Some(at) => entry_value(header.skip(at + key.len() + 2)),
        None => match find_text(header, in_quotes(key, '"'), 0) {
            Some(at) => entry_value(header.skip(at + key.len() + 2)),
            None => None,
        },
    }
}

/// What stands between the quotation marks of a quoted-string entry.
pub open spec fn quoted_entry(header: Seq<char>, key: Seq<char>) -> Option<Seq<char>> {
    match dict_entry(header, key) {
        Some(raw) => {
            let raw = text::trimmed(raw);
            if raw.len() >= 2 && (raw[0] == '\'' || raw[0] == '"') {
                Some(raw.subrange(1, raw.len() - 1))
            } else {
                None
            }
        },
        None => None,
    }
}

/// The sizes in the elements of a shape, empty ones left out, or the first
/// element that is none.
pub open spec fn sizes(parts: Seq<Seq<char>>) -> Result<Seq<usize>, Seq<char>>
    decreases parts.len(),
{
    if parts.len() == 0 {
        Ok(Seq::empty())
    } else {
        match sizes(parts.drop_last()) {
            Err(part) => Err(part),
            Ok(before) => {
                let part = text::trimmed(parts.last());
                if part.len() == 0 {
                    Ok(before)
                } else {
                    match text::number(part, usize::MAX as nat) {
                        Some(v) => Ok(before.push(v as usize)),
                        None => Err(part),
                    }
                }
            },
        }
    }
}

/// The sizes of a shape, or what is wrong with it.
pub open spec fn shape_sizes(shape: Seq<char>) -> Result<Seq<usize>, Seq<char>> {
    let s = text::trimmed(shape);
    if s.len() >= 2 && s[0] == '(' && s.last() == ')' {
        match sizes(text::pieces(s.subrange(1, s.len() - 1), ',')) {
            Ok(v) => Ok(v),
            Err(part) => Err("bad shape element "@ + args::quoted(part)),
        }
    } else {
        Err("unparseable shape "@ + args::quoted(shape))
    }
}

/// Where the header lies (start and end), or what is wrong with the front of
/// the data.
pub open spec fn header_place(bytes: Seq<u8>) -> Result<(int, int), Seq<char>> {
    if bytes.len() < 10 {
        Err("truncated .npy header"@)
    } else if bytes[6] == 1 {
        let len = bytes[8] + 0x100 * bytes[9];
        if 10 + len <= bytes.len() {
            Ok((10, 10 + len))
        } else {
            Err("truncated v1 header"@)
        }
    } else if bytes[6] == 2 || bytes[6] == 3 {
        if bytes.len() < 12 {
            Err("truncated v2 header"@)
        } else {
            let len = bytes[8] + 0x100 * bytes[9] + 0x1_0000 * bytes[10] + 0x100_0000 * bytes[11];
            if 12 + len <= bytes.len() {
                Ok((12, 12 + len))
            } else {
                Err("truncated v2 header"@)
            }
        }
    } else {
        Err("unsupported .npy version "@ + text::decimal(bytes[6] as nat))
    }
}

/// The sizes that a header declares (rows, dimension), or what is wrong with it.
pub open spec fn declared_sizes(header: Seq<char>) -> Result<(usize, usize), Seq<char>> {
    match quoted_entry(header, "descr"@) {
        None => Err("missing 'descr' in .npy header"@),
        Some(descr) => if descr != "<f4"@ {
            Err("expected descr '<f4' (little-endian f32), got "@ + args::quoted(descr))
        } else {
            match dict_entry(header, "fortran_order"@) {
                None => Err("missing 'fortran_order'"@),
                Some(order) => if order == "True"@ {
                    Err("fortran_order: True is not supported (save C-order)"@)
                } else if order != "False"@ {
                    Err("unparseable fortran_order "@ + args::quoted(order))
                } else {
                    match dict_entry(header, "shape"@) {
                        None => Err("missing 'shape'"@),
                        Some(shape) => match shape_sizes(shape) {
                            Err(message) => Err(message),
                            Ok(dims) => if dims.len() != 2 {
                                Err(
                                    "expected 2-D shape (n, dim), got "@ + shape
                                        + " — reshape to (n, dim) before saving"@,
                                )
                            } else if dims[1] == 0 {
                                Err("dim must be > 0"@)
                            } else {
                                Ok((dims[0], dims[1]))
                            },
                        },
                    }
                },
            }
        },
    }
}

/// The matrix in `.npy` data (elements row by row, and the dimension), or what
/// is wrong with them.
pub open spec fn npy_matrix(bytes: Seq<u8>) -> Result<(Seq<u32>, usize), Seq<char>> {
    match header_place(bytes) {
        Err(message) => Err(message),
        Ok((start, end)) => if !vstd::utf8::valid_utf8(bytes.subrange(start, end)) {
            Err("non-utf8 .npy header"@)
        } else {
            match declared_sizes(vstd::utf8::decode_utf8(bytes.subrange(start, end))) {
                Err(message) => Err(message),
                Ok((n, dim)) => {
                    let data = bytes.skip(end);
                    if data.len() != n * dim * 4 {
                        Err(
                            "data section is "@ + text::decimal(data.len()) + " bytes, expected "@
                                + text::decimal((n * dim * 4) as nat) + " for shape ("@
                                + text::decimal(n as nat) + ", "@ + text::decimal(dim as nat)
                                + ") f32"@,
                        )
                    } else {
                        Ok((words(data), dim))
                    }
                },
            }
        },
    }
}

/// `std::str::from_utf8`: the text that the bytes encode, where they are
/// valid UTF-8.
#[verifier::external_body]
pub(crate) fn decode(bytes: &[u8]) -> (r: Option<&str>)
    ensures
        r is Some <==> vstd::utf8::valid_utf8(bytes@),
        r matches Some(s) ==> s@ == vstd::utf8::decode_utf8(bytes@),
{
    std::str::from_utf8(bytes).ok()
}

/// Reads little-endian 32-bit words.
fn le_f32(bytes: &[u8]) -> (r: Vec<u32>)
    ensures
        r@ == words(bytes@),
{
    let n: usize = bytes.len() / 4;
    let mut out: Vec<u32> = Vec::new();
    let mut i: usize = 0;
    while i < n
        invariant
            i <= n == bytes@.len() / 4,
            bytes@.len() <= usize::MAX,
            out@.len() == i,
            forall|k: int| 0 <= k < i ==> #[trigger] out@[k] == word_at(bytes@, k),
        decreases n - i,
    {
        let (a, b): (u32, u32) = (bytes[4 * i] as u32, bytes[4 * i + 1] as u32);
        let (c, d): (u32, u32) = (bytes[4 * i + 2] as u32, bytes[4 * i + 3] as u32);
        out.push(a + 0x100 * b + 0x1_0000 * c + 0x100_0000 * d);
        i += 1;
    }
    assert(out@ =~= words(bytes@));
    out
}

/// Whether the pattern stands in `s` at `at`.
fn stands_at(s: &[char], pattern: &[char], at: usize) -> (r: bool)
    requires
        at + pattern@.len() <= s@.len(),
    ensures
        r == (s@.subrange(at as int, at + pattern@.len()) == pattern@),
{
    let n: usize = pattern.len();
    let total: usize = s.len();
    let mut i: usize = 0;
    while i < n
        invariant
            i <= n == pattern@.len(),
            total == s@.len(),
            at + n <= total,
            forall|k: int| 0 <= k < i ==> s@[at + k] == #[trigger] pattern@[k],
        decreases n - i,
    {
        if s[at + i] != pattern[i] {
            assert(s@.subrange(at as int, at + n)[i as int] != pattern@[i as int]);
            return false;
        }
        i += 1;
    }
    assert(s@.subrange(at as int, at + n) =~= pattern@);
    true
}

/// Finds a pattern.
fn search(s: &[char], pattern: &[char]) -> (r: Option<usize>)
    ensures
        match find_text(s@, pattern@, 0) {
            Some(at) => r matches Some(i) && i == at && at + pattern@.len() <= s@.len(),
            None => r is None,
        },
{
    let (total, n): (usize, usize) = (s.len(), pattern.len());
    let mut at: usize = 0;
    while n <= total && at <= total - n
        invariant
            total == s@.len(),
            n == pattern@.len(),
            at <= total,
            find_text(s@, pattern@, 0) == find_text(s@, pattern@, at as int),
        decreases total + 1 - at,
    {
        if stands_at(s, pattern, at) {
            return Some(at);
        }
        if at == total {
            assert(find_text(s@, pattern@, at + 1) is None);
            return None;
        }
        at += 1;
    }
    None
}

/// Finds a character.
fn position(s: &[char], c: char) -> (r: usize)
    ensures
        r == text::find(s@, c, 0),
{
    let n: usize = s.len();
    let mut i: usize = 0;
    while i < n && s[i] != c
        invariant
            i <= n == s@.len(),
            text::find(s@, c, 0) == text::find(s@, c, i as int),
        decreases n - i,
    {
        i += 1;
    }
    i
}

/// Finds the end of a value.
fn end_of_value(value: &[char]) -> (r: usize)
    ensures
        r == value_end(value@, 0, 0),
        r <= value@.len(),
{
    let n: usize = value.len();
    let mut depth: usize = 0;
    let mut i: usize = 0;
    while i < n
        invariant
            i <= n == value@.len(),
            depth <= i,
            value_end(value@, 0, 0) == value_end(value@, i as int, depth as nat),
        decreases n - i,
    {
        let c: char = value[i];
        if c == '(' || c == '[' {
            depth += 1;
        } else if (c == ')' || c == ']') && depth > 0 {
            depth -= 1;
        } else if (c == ',' || c == '}') && depth == 0 {
            return i;
        }
        i += 1;
    }
    n
}

/// Removes white space from the front.
fn trim_start<'a>(s: &'a [char]) -> (r: &'a [char])
    ensures
        r@ == text::trimmed_start(s@),
{
    let n: usize = s.len();
    let mut lo: usize = 0;
    assert(s@.skip(0) =~= s@);
    while lo < n && text::is_white(s[lo])
        invariant
            lo <= n == s@.len(),
            text::trimmed_start(s@) == text::trimmed_start(s@.skip(lo as int)),
        decreases n - lo,
    {
        assert(s@.skip(lo as int).skip(1) =~= s@.skip(lo + 1));
        lo += 1;
    }
    assert(s@.subrange(lo as int, n as int) =~= s@.skip(lo as int));
    &s[lo..n]
}

/// Removes white space from the end, then closing braces.
fn trim_end_and_braces<'a>(s: &'a [char]) -> (r: &'a [char])
    ensures
        r@ == unbraced(text::trimmed_end(s@)),
{
    let mut hi: usize = s.len();
    assert(s@.subrange(0, hi as int) =~= s@);
    while hi > 0 && text::is_white(s[hi - 1])
        invariant
            hi <= s@.len(),
            text::trimmed_end(s@) == text::trimmed_end(s@.subrange(0, hi as int)),
        decreases hi,
    {
        assert(s@.subrange(0, hi as int).drop_last() =~= s@.subrange(0, hi - 1));
        hi -= 1;
    }
    assert(text::trimmed_end(s@) == s@.subrange(0, hi as int));
    while hi > 0 && s[hi - 1] == '}'
        invariant
            hi <= s@.len(),
            unbraced(text::trimmed_end(s@)) == unbraced(s@.subrange(0, hi as int)),
        decreases hi,
    {
        assert(s@.subrange(0, hi as int).drop_last() =~= s@.subrange(0, hi - 1));
        hi -= 1;
    }
    &s[0..hi]
}

/// The value after a key.
fn value_after<'a>(after: &'a [char]) -> (r: Option<&'a [char]>)
    ensures
        match entry_value(after@) {
            Some(value) => r matches Some(s) && s@ == value,
            None => r is None,
        },
{
    let n: usize = after.len();
    let colon: usize = position(after, ':');
    if colon >= n {
        return None;
    }
    assert(after@.subrange(colon + 1, n as int) =~= after@.skip(colon + 1));
    let value: &[char] = trim_start(&after[colon + 1..n]);
    let end: usize = end_of_value(value);
    if end < value.len() {
        assert(value@.subrange(0, end as int) =~= value@.take(end as int));
        Some(text::trim(&value[0..end]))
    } else {
        Some(text::trim(trim_end_and_braces(value)))
    }
}

/// Raw text of a dictionary entry's value.
fn dict_raw<'a>(header: &'a [char], key: &str) -> (r: Option<&'a [char]>)
    ensures
        match dict_entry(header@, key@) {
            Some(value) => r matches Some(s) && s@ == value,
            None => r is None,
        },
{
    let single: Vec<char> = quoted_key(key, '\'');
    let n: usize = header.len();
    match search(header, single.as_slice()) {
        Some(at) => {
            let from: usize = at + single.len();
            assert(header@.subrange(from as int, n as int) =~= header@.skip(at + key@.len() + 2));
            value_after(&header[from..n])
        },
        None => {
            let double: Vec<char> = quoted_key(key, '"');
            match search(header, double.as_slice()) {
                Some(at) => {
                    let from: usize = at + double.len();
                    assert(header@.subrange(from as int, n as int) =~= header@.skip(
                        at + key@.len() + 2,
                    ));
                    value_after(&header[from..n])
                },
                None => None,
            }
        },
    }
}

/// Puts a key in quotation marks.
fn quoted_key(key: &str, mark: char) -> (r: Vec<char>)
    ensures
        r@ == in_quotes(key@, mark),
{
    let chars: Vec<char> = text::chars(key);
    let mut out: Vec<char> = Vec::new();
    out.push(mark);
    let mut i: usize = 0;
    assert(out@ =~= seq![mark] + chars@.take(0));
    while i < chars.len()
        invariant
            i <= chars@.len(),
            chars@ == key@,
            out@ == seq![mark] + chars@.take(i as int),
        decreases chars@.len() - i,
    {
        out.push(chars[i]);
        i += 1;
        assert(out@ =~= seq![mark] + chars@.take(i as int));
    }
    out.push(mark);
    assert(out@ =~= in_quotes(key@, mark));
    out
}

/// Value of a quoted-string dictionary entry, tolerant of key order and white
/// space.
fn dict_str<'a>(header: &'a [char], key: &str) -> (r: Option<&'a [char]>)
    ensures
        match quoted_entry(header@, key@) {
            Some(value) => r matches Some(s) && s@ == value,
            None => r is None,
        },
{
    match dict_raw(header, key) {
        Some(raw) => {
            let raw: &[char] = text::trim(raw);
            let n: usize = raw.len();
            if n >= 2 && (raw[0] == '\'' || raw[0] == '"') {
                Some(&raw[1..n - 1])
            } else {
                None
            }
        },
        None => None,
    }
}

/// A message that ends in a quoted text.
fn message_with(front: &str, chars: &[char]) -> (r: String)
    ensures
        r@ == front@ + args::quoted(chars@),
{
    let mut m: String = String::new();
    m.append(front);
    m.append(args::quote(text::from_chars(chars).as_str()).as_str());
    assert(m@ =~= front@ + args::quoted(chars@));
    m
}

/// A list of sizes fails with the first element that fails.
proof fn lemma_bad_size(parts: Seq<Seq<char>>, n: int)
    requires
        0 <= n <= parts.len(),
        sizes(parts.take(n)) is Err,
    ensures
        sizes(parts) == sizes(parts.take(n)),
    decreases parts.len() - n,
{
    if n == parts.len() {
        assert(parts.take(n) =~= parts);
    } else {
        assert(parts.take(n + 1).drop_last() =~= parts.take(n));
        lemma_bad_size(parts, n + 1);
    }
}

/// The sizes of a shape such as `(2, 3)`.
fn parse_shape(shape: &[char]) -> (r: Result<Vec<usize>, String>)
    ensures
        match shape_sizes(shape@) {
            Ok(v) => r matches Ok(w) && w@ == v,
            Err(message) => r matches Err(m) && m@ == message,
        },
{
    let s: &[char] = text::trim(shape);
    let n: usize = s.len();
    if n < 2 || s[0] != '(' || s[n - 1] != ')' {
        return Err(message_with("unparseable shape ", shape));
    }
    let inner: &[char] = &s[1..n - 1];
    let parts: Vec<Vec<char>> = text::split(inner, ',');
    let ghost all = text::pieces(inner@, ',');
    let mut out: Vec<usize> = Vec::new();
    let mut i: usize = 0;
    assert(all.take(0) =~= Seq::<Seq<char>>::empty());
    while i < parts.len()
        invariant
            i <= parts@.len() == all.len(),
            forall|k: int| 0 <= k < parts@.len() ==> (#[trigger] parts@[k])@ == all[k],
            sizes(all.take(i as int)) == Ok::<Seq<usize>, Seq<char>>(out@),
            ({
                let t = text::trimmed(shape@);
                &&& t.len() >= 2
                &&& t[0] == '('
                &&& t.last() == ')'
                &&& all == text::pieces(t.subrange(1, t.len() - 1), ',')
            }),
        decreases parts@.len() - i,
    {
        let ghost longer = all.take(i + 1);
        assert(longer.drop_last() =~= all.take(i as int));
        assert(longer.last() == parts@[i as int]@);
        let part: &[char] = text::trim(parts[i].as_slice());
        if part.len() > 0 {
            match text::parse_number(part, usize::MAX as u64) {
                Some(v) => {
                    out.push(v as usize);
                },
                None => {
                    proof {
                        assert(sizes(longer) == Err::<Seq<usize>, Seq<char>>(part@));
                        lemma_bad_size(all, i + 1);
                    }
                    return Err(message_with("bad shape element ", part));
                },
            }
        }
        i += 1;
    }
    assert(all.take(all.len() as int) =~= all);
    Ok(out)
}

/// Whether characters are those of a text.
fn equals(chars: &[char], other: &str) -> (r: bool)
    ensures
        r == (chars@ == other@),
{
    text::same(text::from_chars(chars).as_str(), other)
}

/// The sizes that a header declares.
fn parse_header(header: &[char]) -> (r: Result<(usize, usize), String>)
    ensures
        match declared_sizes(header@) {
            Ok(pair) => r == Ok::<(usize, usize), String>(pair),
            Err(message) => r matches Err(m) && m@ == message,
        },
{
    let descr: &[char] = match dict_str(header, "descr") {
        Some(descr) => descr,
        None => {
            return Err("missing 'descr' in .npy header".to_owned());
        },
    };
    if !equals(descr, "<f4") {
        return Err(message_with("expected descr '<f4' (little-endian f32), got ", descr));
    }
    let order: &[char] = match dict_raw(header, "fortran_order") {
        Some(order) => order,
        None => {
            return Err("missing 'fortran_order'".to_owned());
        },
    };
    if equals(order, "True") {
        return Err("fortran_order: True is not supported (save C-order)".to_owned());
    }
    if !equals(order, "False") {
        return Err(message_with("unparseable fortran_order ", order));
    }
    let shape: &[char] = match dict_raw(header, "shape") {
        Some(shape) => shape,
        None => {
            return Err("missing 'shape'".to_owned());
        },
    };
    let dims: Vec<usize> = match parse_shape(shape) {
        Ok(dims) => dims,
        Err(message) => {
            return Err(message);
        },
    };
    if dims.len() != 2 {
        let mut m: String = String::new();
        m.append("expected 2-D shape (n, dim), got ");
        m.append(text::from_chars(shape).as_str());
        m.append(" — reshape to (n, dim) before saving");
        assert(m@ =~= "expected 2-D shape (n, dim), got "@ + shape@
            + " — reshape to (n, dim) before saving"@);
        return Err(m);
    }
    if dims[1] == 0 {
        return Err("dim must be > 0".to_owned());
    }
    Ok((dims[0], dims[1]))
}

/// Where the header of `.npy` data lies.
fn locate_header(bytes: &[u8]) -> (r: Result<(usize, usize), String>)
    ensures
        match header_place(bytes@) {
            Ok((start, end)) => r matches Ok((s, e)) && s == start && e == end && start <= end
                && end <= bytes@.len(),
            Err(message) => r matches Err(m) && m@ == message,
        },
{
    let n: usize = bytes.len();
    if n < 10 {
        return Err("truncated .npy header".to_owned());
    }
    let major: u8 = bytes[6];
    if major == 1 {
        let len: usize = bytes[8] as usize + 0x100 * bytes[9] as usize;
        if len <= n - 10 {
            Ok((10, 10 + len))
        } else {
            Err("truncated v1 header".to_owned())
        }
    } else if major == 2 || major == 3 {
        if n < 12 {
            return Err("truncated v2 header".to_owned());
        }
        let len: u64 = bytes[8] as u64 + 0x100 * bytes[9] as u64 + 0x1_0000 * bytes[10] as u64
            + 0x100_0000 * bytes[11] as u64;
        if len <= (n - 12) as u64 {
            Ok((12, 12 + len as usize))
        } else {
            Err("truncated v2 header".to_owned())
        }
    } else {
        let mut m: String = String::new();
        m.append("unsupported .npy version ");
        text::push_decimal(&mut m, major as u128);
        assert(m@ =~= "unsupported .npy version "@ + text::decimal(major as nat));
        Err(m)
    }
}

/// Reads `.npy` data: the elements row by row, and the dimension.
pub fn parse_npy(bytes: &[u8]) -> (r: Result<(Vec<u32>, usize), String>)
    ensures
        match npy_matrix(bytes@) {
            Ok((data, dim)) => r matches Ok((v, d)) && v@ == data && d == dim,
            Err(message) => r matches Err(m) && m@ == message,
        },
{
    let total: usize = bytes.len();
    let (start, end): (usize, usize) = match locate_header(bytes) {
        Ok(place) => place,
        Err(message) => {
            return Err(message);
        },
    };
    let header: Vec<char> = match decode(&bytes[start..end]) {
        Some(header) => text::chars(header),
        None => {
            return Err("non-utf8 .npy header".to_owned());
        },
    };
    let (n, dim): (usize, usize) = match parse_header(header.as_slice()) {
        Ok(pair) => pair,
        Err(message) => {
            return Err(message);
        },
    };
    assert(bytes@.subrange(end as int, total as int) =~= bytes@.skip(end as int));
    let data: &[u8] = &bytes[end..total];
    assert(n * dim <= 0xFFFF_FFFF_FFFF_FFFF * 0xFFFF_FFFF_FFFF_FFFF) by (nonlinear_arith)
        requires
            n <= 0xFFFF_FFFF_FFFF_FFFF,
            dim <= 0xFFFF_FFFF_FFFF_FFFF,
    ;
    let cells: u128 = n as u128 * dim as u128;
    if cells <= 0xFFFF_FFFF_FFFF_FFFF && data.len() as u128 == cells * 4 {
        return Ok((le_f32(data), dim));
    }
    Err(size_message(data.len(), n, dim))
}

/// The message for data of another size than the shape declares.
fn size_message(found: usize, n: usize, dim: usize) -> (r: String)
    ensures
        r@ == "data section is "@ + text::decimal(found as nat) + " bytes, expected "@
            + text::decimal((n * dim * 4) as nat) + " for shape ("@ + text::decimal(n as nat)
            + ", "@ + text::decimal(dim as nat) + ") f32"@,
{
    let mut m: String = String::new();
    m.append("data section is ");
    text::push_decimal(&mut m, found as u128);
    m.append(" bytes, expected ");
    push_product(&mut m, n, dim);
    m.append(" for shape (");
    text::push_decimal(&mut m, n as u128);
    m.append(", ");
    text::push_decimal(&mut m, dim as u128);
    m.append(") f32");
    assert(m@ =~= "data section is "@ + text::decimal(found as nat) + " bytes, expected "@
        + text::decimal((n * dim * 4) as nat) + " for shape ("@ + text::decimal(n as nat) + ", "@
        + text::decimal(dim as nat) + ") f32"@);
    m
}

/// Appends `n * dim * 4` in decimal, digit groups apart so that no product
/// leaves 128 bits.
fn push_product(m: &mut String, n: usize, dim: usize)
    ensures
        final(m)@ == old(m)@ + text::decimal((n * dim * 4) as nat),
{
    assert(n * dim <= 0xFFFF_FFFF_FFFF_FFFF * 0xFFFF_FFFF_FFFF_FFFF) by (nonlinear_arith)
        requires
            n <= 0xFFFF_FFFF_FFFF_FFFF,
            dim <= 0xFFFF_FFFF_FFFF_FFFF,
    ;
    let cells: u128 = n as u128 * dim as u128;
    let (high, low): (u128, u128) = (cells / 10, (cells % 10) * 4);
    let tens: u128 = high * 4 + low / 10;
    assert(cells * 4 == tens * 10 + low % 10);
    if tens > 0 {
        text::push_decimal(m, tens);
    }
    text::push_decimal(m, low % 10);
    assert(m@ =~= old(m)@ + text::decimal((n * dim * 4) as nat));
}

/// Whether the data begin with the `.npy` magic.
pub open spec fn has_magic(bytes: Seq<u8>) -> bool {
    bytes.len() >= 6 && bytes.take(6) == seq![0x93u8, 0x4E, 0x55, 0x4D, 0x50, 0x59]
}

/// The matrix that a file holds, or what is wrong with it. `name` is the
/// file's, for messages.
pub open spec fn file_matrix(name: Seq<char>, bytes: Seq<u8>, raw_dim: Option<usize>) -> Result<
    (Seq<u32>, usize),
    Seq<char>,
> {
    if has_magic(bytes) {
        match npy_matrix(bytes) {
            Ok(matrix) => Ok(matrix),
            Err(message) => Err(name + ": "@ + message),
        }
    } else {
        match raw_dim {
            None => Err(name + " is not .npy; raw f32 files need --dim"@),
            Some(dim) => if bytes.len() % (4 * dim) as nat != 0 {
                Err(
                    name + ": "@ + text::decimal(bytes.len()) + " bytes is not whole rows of dim "@
                        + text::decimal(dim as nat) + " (row = "@ + text::decimal((4 * dim) as nat)
                        + " bytes)"@,
                )
            } else {
                Ok((words(bytes), dim))
            },
        }
    }
}

/// Tells `.npy` data by their magic.
pub fn starts_with_magic(bytes: &[u8]) -> (r: bool)
    ensures
        r == has_magic(bytes@),
{
    if bytes.len() < 6 {
        return false;
    }
    let magic: [u8; 6] = [0x93, 0x4E, 0x55, 0x4D, 0x50, 0x59];
    let front: &[u8] = &bytes[0..6];
    assert(front@ =~= bytes@.take(6));
    let r: bool = front[0] == magic[0] && front[1] == magic[1] && front[2] == magic[2] && front[3]
        == magic[3] && front[4] == magic[4] && front[5] == magic[5];
    proof {
        let want = seq![0x93u8, 0x4E, 0x55, 0x4D, 0x50, 0x59];
        if r {
            assert(front@ =~= want);
        } else {
            assert(front@ == want ==> front@[0] == want[0] && front@[1] == want[1] && front@[2]
                == want[2] && front@[3] == want[3] && front@[4] == want[4] && front@[5] == want[5]);
        }
    }
    r
}

/// The matrix in a file's bytes (elements row by row, and the dimension).
/// `raw_dim` is needed for data that are not `.npy`.
pub fn load_matrix(name: &str, bytes: &[u8], raw_dim: Option<usize>) -> (r: Result<
    (Vec<u32>, usize),
    String,
>)
    requires
        raw_dim matches Some(dim) ==> has_magic(bytes@) || (0 < dim && 4 * dim <= usize::MAX),
    ensures
        match file_matrix(name@, bytes@, raw_dim) {
            Ok((data, dim)) => r matches Ok((v, d)) && v@ == data && d == dim,
            Err(message) => r matches Err(m) && m@ == message,
        },
{
    let mut m: String = String::new();
    m.append(name);
    assert(m@ =~= name@);
    if starts_with_magic(bytes) {
        return match parse_npy(bytes) {
            Ok(matrix) => Ok(matrix),
            Err(message) => {
                m.append(": ");
                m.append(message.as_str());
                Err(m)
            },
        };
    }
    match raw_dim {
        None => {
            m.append(" is not .npy; raw f32 files need --dim");
            Err(m)
        },
        Some(dim) => {
            let n: usize = bytes.len();
            if n % (4 * dim) != 0 {
                m.append(": ");
                text::push_decimal(&mut m, n as u128);
                m.append(" bytes is not whole rows of dim ");
                text::push_decimal(&mut m, dim as u128);
                m.append(" (row = ");
                text::push_decimal(&mut m, 4 * dim as u128);
                m.append(" bytes)");
                return Err(m);
            }
            Ok((le_f32(bytes), dim))
        },
    }
}

/// The bytes of 32-bit words, little-endian.
pub open spec fn word_bytes(data: Seq<u32>) -> Seq<u8> {
    Seq::new(
        4 * data.len(),
        |i: int|
            if i % 4 == 0 {
                (data[i / 4] % 0x100) as u8
            } else if i % 4 == 1 {
                (data[i / 4] / 0x100 % 0x100) as u8
            } else if i % 4 == 2 {
                (data[i / 4] / 0x1_0000 % 0x100) as u8
            } else {
                (data[i / 4] / 0x100_0000) as u8
            },
    )
}

/// A word is made of its four bytes.
proof fn lemma_four_bytes(word: u32)
    ensures
        word == word % 0x100 + 0x100 * (word / 0x100 % 0x100) + 0x1_0000 * (word / 0x1_0000 % 0x100)
            + 0x100_0000 * (word / 0x100_0000),
        word / 0x100_0000 < 0x100,
{
}

/// The word at place `i` is the one whose bytes stand there.
proof fn lemma_word_at(data: Seq<u32>, i: int)
    requires
        0 <= i < data.len(),
    ensures
        word_at(word_bytes(data), i) == data[i],
{
    let bytes = word_bytes(data);
    let word = data[i];
    assert(bytes[4 * i] == (word % 0x100) as u8) by {
        assert((4 * i) % 4 == 0 && (4 * i) / 4 == i);
    }
    assert(bytes[4 * i + 1] == (word / 0x100 % 0x100) as u8) by {
        assert((4 * i + 1) % 4 == 1 && (4 * i + 1) / 4 == i);
    }
    assert(bytes[4 * i + 2] == (word / 0x1_0000 % 0x100) as u8) by {
        assert((4 * i + 2) % 4 == 2 && (4 * i + 2) / 4 == i);
    }
    assert(bytes[4 * i + 3] == (word / 0x100_0000) as u8) by {
        assert((4 * i + 3) % 4 == 3 && (4 * i + 3) / 4 == i);
    }
    lemma_four_bytes(word);
}

/// Reading gives back the words whose bytes were written.
pub proof fn law_words_round_trip(data: Seq<u32>)
    ensures
        words(word_bytes(data)) == data,
{
    let bytes = word_bytes(data);
    assert forall|i: int| 0 <= i < data.len() implies words(bytes)[i] == data[i] by {
        lemma_word_at(data, i);
    }
    assert(words(bytes) =~= data);
}

} // verus!
