//! What loading a file promises: data written as a well-formed `.npy` file, or
//! as raw words, are read back as they were.

use vstd::prelude::*;
use crate::recall::lines;
use crate::recall::npy;
use crate::text;

verus! {

/// Decimal digits write their number, and nothing but digits.
pub proof fn law_decimal_reads_back(n: nat, max: nat)
    ensures
        text::all_digits(text::decimal(n)),
        text::digits_value(text::decimal(n)) == n,
        n <= max ==> text::number(text::decimal(n), max) == Some(n),
        n > max ==> text::number(text::decimal(n), max) is None,
{
    lemma_decimal(n);
    assert('0' <= text::decimal(n)[0]);
}

proof fn lemma_decimal(n: nat)
    ensures
        text::all_digits(text::decimal(n)),
        text::digits_value(text::decimal(n)) == n,
    decreases n,
{
    let s = text::decimal(n);
    if n < 10 {
        assert(s.drop_last() =~= Seq::<char>::empty());
        assert(text::digits_value(s.drop_last()) == 0);
        assert(s.last() as nat == 48 + n);
    } else {
        lemma_decimal(n / 10);
        let front = text::decimal(n / 10);
        assert(s.drop_last() =~= front);
        assert(s.last() as nat == 48 + n % 10);
        assert forall|i: int| 0 <= i < s.len() implies '0' <= #[trigger] s[i] <= '9' by {
            if i < front.len() {
                assert(s[i] == front[i]);
            }
        }
    }
}

/// A text that neither begins nor ends with white space is not trimmed.
proof fn lemma_not_trimmed(s: Seq<char>)
    requires
        s.len() > 0,
        !text::white(s[0]),
        !text::white(s.last()),
    ensures
        text::trimmed_start(s) == s,
        text::trimmed(s) == s,
{
}

/// One leading space is trimmed.
proof fn lemma_space_trimmed(s: Seq<char>, t: Seq<char>)
    requires
        s == seq![' '] + t,
        t.len() > 0,
        !text::white(t[0]),
        !text::white(t.last()),
    ensures
        text::trimmed_start(s) == t,
        text::trimmed(s) == t,
{
    assert(s.skip(1) =~= t);
    assert(text::white(s[0]));
    lemma_not_trimmed(t);
}

/// Where a separator first occurs.
proof fn lemma_find(s: Seq<char>, c: char, from: int, at: int)
    requires
        0 <= from <= at <= s.len(),
        forall|j: int| from <= j < at ==> #[trigger] s[j] != c,
        at < s.len() ==> s[at] == c,
    ensures
        text::find(s, c, from) == at,
    decreases at - from,
{
    if from < at {
        lemma_find(s, c, from + 1, at);
    }
}

/// Where `find` stops: at the end, or at the character.
pub proof fn lemma_found(s: Seq<char>, c: char, from: int)
    requires
        0 <= from <= s.len(),
    ensures
        from <= text::find(s, c, from) <= s.len(),
        text::find(s, c, from) < s.len() ==> s[text::find(s, c, from)] == c,
        forall|j: int| from <= j < text::find(s, c, from) ==> #[trigger] s[j] != c,
    decreases s.len() - from,
{
    if from < s.len() && s[from] != c {
        lemma_found(s, c, from + 1);
    }
}

/// A text without the separator is one piece, and one in front of a separator
/// is the first piece.
pub proof fn law_pieces(a: Seq<char>, rest: Seq<char>, separator: char)
    requires
        forall|i: int| 0 <= i < a.len() ==> #[trigger] a[i] != separator,
    ensures
        text::pieces(a, separator) == seq![a],
        text::pieces(a + seq![separator] + rest, separator) == seq![a] + text::pieces(
            rest,
            separator,
        ),
{
    lemma_find(a, separator, 0, a.len() as int);
    let s = a + seq![separator] + rest;
    assert forall|j: int| 0 <= j < a.len() implies #[trigger] s[j] != separator by {
        assert(s[j] == a[j]);
    }
    lemma_find(s, separator, 0, a.len() as int);
    assert(s.take(a.len() as int) =~= a);
    assert(s.skip(a.len() as int + 1) =~= rest);
}

/// Characters that end no value are passed.
proof fn lemma_passed(value: Seq<char>, i: int, j: int, depth: nat)
    requires
        0 <= i <= j <= value.len(),
        forall|k: int|
            i <= k < j ==> {
                let c = #[trigger] value[k];
                &&& c != '(' && c != '[' && c != ')' && c != ']'
                &&& depth > 0 || (c != ',' && c != '}')
            },
    ensures
        npy::value_end(value, i, depth) == npy::value_end(value, j, depth),
    decreases j - i,
{
    if i < j {
        lemma_passed(value, i + 1, j, depth);
    }
}

/// A header with the given element type, order and shape, before what may follow
/// it.
pub open spec fn header_of(descr: Seq<char>, order: Seq<char>, shape: Seq<char>) -> Seq<char> {
    "{'descr': '"@ + descr + "', 'fortran_order': "@ + order + ", 'shape': "@ + shape + ", }"@
}

/// Numbers in decimal, with a comma and a space between them.
pub open spec fn numbers(sizes: Seq<usize>) -> Seq<char>
    decreases sizes.len(),
{
    if sizes.len() == 0 {
        Seq::empty()
    } else if sizes.len() == 1 {
        text::decimal(sizes[0] as nat)
    } else {
        numbers(sizes.drop_last()) + ", "@ + text::decimal(sizes.last() as nat)
    }
}

/// A shape: the sizes in parentheses.
pub open spec fn shape_of(sizes: Seq<usize>) -> Seq<char> {
    "("@ + numbers(sizes) + ")"@
}

/// A text that can stand in a header: without quotation marks, brackets, commas
/// and braces.
pub open spec fn unmarked(s: Seq<char>) -> bool {
    forall|i: int|
        0 <= i < s.len() ==> {
            let c = #[trigger] s[i];
            &&& c != '\'' && c != '(' && c != ')' && c != '[' && c != ']'
            &&& c != ',' && c != '{' && c != '}'
        }
}

/// The six bytes that `.npy` data begin with.
pub open spec fn magic() -> Seq<u8> {
    seq![0x93u8, 0x4E, 0x55, 0x4D, 0x50, 0x59]
}

/// The bytes of a `.npy` file of version 1: magic, version, the header's length
/// in two bytes, the header, the data.
pub open spec fn first_version(minor: u8, header: Seq<u8>, data: Seq<u8>) -> Seq<u8> {
    magic() + seq![1u8, minor, (header.len() % 0x100) as u8, (header.len() / 0x100) as u8] + header
        + data
}

/// The bytes of one of version 2 or 3, with the length in four bytes.
pub open spec fn later_version(major: u8, minor: u8, header: Seq<u8>, data: Seq<u8>) -> Seq<u8> {
    magic() + seq![
        major,
        minor,
        (header.len() % 0x100) as u8,
        (header.len() / 0x100 % 0x100) as u8,
        (header.len() / 0x1_0000 % 0x100) as u8,
        (header.len() / 0x100_0000) as u8,
    ] + header + data
}

/// `bytes` are a `.npy` file of the version with that header and those data.
pub open spec fn is_file(
    bytes: Seq<u8>,
    major: u8,
    minor: u8,
    header: Seq<char>,
    data: Seq<u8>,
) -> bool {
    let coded = vstd::utf8::encode_utf8(header);
    ||| major == 1 && coded.len() < 0x1_0000 && bytes == first_version(minor, coded, data)
    ||| (major == 2 || major == 3) && coded.len() < 0x1_0000_0000 && bytes == later_version(
        major,
        minor,
        coded,
        data,
    )
}

/// A key in quotation marks is found where it stands, if it stands nowhere
/// before: at every quotation mark before it something else follows.
proof fn lemma_key_found(s: Seq<char>, name: Seq<char>, at: int)
    requires
        0 <= at,
        at + name.len() + 2 <= s.len(),
        s.subrange(at, at + name.len() + 2) == npy::in_quotes(name, '\''),
        forall|j: int|
            0 <= j < at && #[trigger] s[j] == '\'' ==> s.subrange(j, j + name.len() + 2)
                != npy::in_quotes(name, '\''),
    ensures
        npy::find_text(s, npy::in_quotes(name, '\''), 0) == Some(at),
{
    lemma_key_found_from(s, name, 0, at);
}

proof fn lemma_key_found_from(s: Seq<char>, name: Seq<char>, from: int, at: int)
    requires
        0 <= from <= at,
        at + name.len() + 2 <= s.len(),
        s.subrange(at, at + name.len() + 2) == npy::in_quotes(name, '\''),
        forall|j: int|
            0 <= j < at && #[trigger] s[j] == '\'' ==> s.subrange(j, j + name.len() + 2)
                != npy::in_quotes(name, '\''),
    ensures
        npy::find_text(s, npy::in_quotes(name, '\''), from) == Some(at),
    decreases at - from,
{
    if from < at {
        let here = s.subrange(from, from + name.len() + 2);
        if here == npy::in_quotes(name, '\'') {
            assert(here[0] == s[from]);
            assert(false);
        }
        lemma_key_found_from(s, name, from + 1, at);
    }
}

/// What is found behind a key: the value, from behind a colon and a space up to
/// the comma.
proof fn lemma_value_found(after: Seq<char>, value: Seq<char>, rest: Seq<char>)
    requires
        after == ": "@ + value + ","@ + rest,
        value.len() > 0,
        !text::white(value[0]),
        !text::white(value.last()),
        npy::value_end(value + ","@ + rest, 0, 0) == value.len(),
    ensures
        npy::entry_value(after) == Some(value),
{
    reveal_strlit(": ");
    reveal_strlit(",");
    let tail = value + ","@ + rest;
    lemma_find(after, ':', 0, 0);
    assert(after.skip(1) =~= seq![' '] + tail);
    assert(tail[0] == value[0]);
    assert(after.skip(1).skip(1) =~= tail);
    assert(text::trimmed_start(tail) == tail);
    assert(text::trimmed_start(after.skip(1)) == tail);
    assert(tail.take(value.len() as int) =~= value);
    lemma_not_trimmed(value);
}

/// The parts of a header.
spec fn parts(descr: Seq<char>, order: Seq<char>, shape: Seq<char>, more: Seq<char>) -> (
    Seq<char>,
    Seq<char>,
    Seq<char>,
) {
    let third = ": "@ + shape + ","@ + (" }"@ + more);
    let second = ": "@ + order + ","@ + (" 'shape'"@ + third);
    let first = ": "@ + ("'"@ + descr + "'"@) + ","@ + (" 'fortran_order'"@ + second);
    (first, second, third)
}

proof fn lemma_parts(descr: Seq<char>, order: Seq<char>, shape: Seq<char>, more: Seq<char>)
    ensures
        header_of(descr, order, shape) + more == "{'descr'"@ + parts(descr, order, shape, more).0,
{
    reveal_strlit("{'descr': '");
    reveal_strlit("', 'fortran_order': ");
    reveal_strlit(", 'shape': ");
    reveal_strlit(", }");
    reveal_strlit(": ");
    reveal_strlit(",");
    reveal_strlit(" }");
    reveal_strlit(" 'shape'");
    reveal_strlit("'");
    reveal_strlit(" 'fortran_order'");
    reveal_strlit("{'descr'");
    let (first, second, third) = parts(descr, order, shape, more);
    let end = shape + ", }"@ + more;
    assert(", 'shape': "@ + end =~= ","@ + (" 'shape'"@ + third));
    let middle = order + (", 'shape': "@ + end);
    assert("', 'fortran_order': "@ + middle =~= "'"@ + (","@ + (" 'fortran_order'"@ + second)));
    assert(header_of(descr, order, shape) + more =~= "{'descr': '"@ + (descr + (
    "', 'fortran_order': "@ + middle)));
    assert("{'descr': '"@ =~= "{'descr'"@ + (": "@ + "'"@));
    assert(first =~= (": "@ + "'"@) + (descr + ("'"@ + (","@ + (" 'fortran_order'"@ + second)))));
}

proof fn lemma_descr(descr: Seq<char>, rest: Seq<char>, header: Seq<char>)
    requires
        unmarked(descr),
        header == "{'descr'"@ + (": "@ + ("'"@ + descr + "'"@) + ","@ + rest),
    ensures
        npy::quoted_entry(header, "descr"@) == Some(descr),
{
    reveal_strlit("{'descr'");
    reveal_strlit("descr");
    reveal_strlit("'");
    reveal_strlit(",");
    let value = "'"@ + descr + "'"@;
    let after = ": "@ + value + ","@ + rest;
    assert(header.subrange(1, 8) =~= npy::in_quotes("descr"@, '\''));
    lemma_key_found(header, "descr"@, 1);
    assert(header.skip(8) =~= after);
    let tail = value + ","@ + rest;
    assert forall|k: int| 0 <= k < value.len() implies {
        let c = #[trigger] tail[k];
        &&& c != '(' && c != '[' && c != ')' && c != ']'
        &&& c != ',' && c != '}'
    } by {
        assert(tail[k] == value[k]);
        if 0 < k < value.len() - 1 {
            assert(value[k] == descr[k - 1]);
        }
    }
    lemma_passed(tail, 0, value.len() as int, 0);
    assert(tail[value.len() as int] == ',');
    lemma_value_found(after, value, rest);
    lemma_not_trimmed(value);
    assert(value.subrange(1, value.len() - 1) =~= descr);
}

/// A name that stands in quotation marks is the name itself.
proof fn lemma_quoted_apart(s: Seq<char>, at: int, held: Seq<char>, name: Seq<char>)
    requires
        0 <= at,
        at + held.len() + 2 <= s.len(),
        at + name.len() + 2 <= s.len(),
        forall|k: int| 0 <= k < held.len() ==> s[at + 1 + k] == #[trigger] held[k],
        s[at + 1 + held.len()] == '\'',
        unmarked(held),
        unmarked(name),
        held != name,
    ensures
        s.subrange(at, at + name.len() + 2) != npy::in_quotes(name, '\''),
{
    let here = s.subrange(at, at + name.len() + 2);
    let want = npy::in_quotes(name, '\'');
    if here == want {
        if held.len() < name.len() {
            assert(here[1 + held.len() as int] == '\'');
            assert(want[1 + held.len() as int] == name[held.len() as int]);
        } else if held.len() > name.len() {
            assert(want[1 + name.len() as int] == '\'');
            assert(here[1 + name.len() as int] == held[name.len() as int]);
        } else {
            assert forall|k: int| 0 <= k < name.len() implies held[k] == name[k] by {
                assert(here[1 + k] == held[k] && want[1 + k] == name[k]);
            }
            assert(held =~= name);
        }
        assert(false);
    }
}

proof fn lemma_order(
    descr: Seq<char>,
    order: Seq<char>,
    rest: Seq<char>,
    header: Seq<char>,
)
    requires
        unmarked(descr),
        descr != "fortran_order"@,
        unmarked(order),
        order.len() > 0,
        !text::white(order[0]),
        !text::white(order.last()),
        header == "{'descr'"@ + (": "@ + ("'"@ + descr + "'"@) + ","@ + (" 'fortran_order'"@ + (
        ": "@ + order + ","@ + rest))),
    ensures
        npy::dict_entry(header, "fortran_order"@) == Some(order),
{
    reveal_strlit("{'descr'");
    reveal_strlit("fortran_order");
    reveal_strlit("'");
    reveal_strlit(": ");
    reveal_strlit(",");
    reveal_strlit(" 'fortran_order'");
    let name = "fortran_order"@;
    let after = ": "@ + order + ","@ + rest;
    let n = descr.len() as int;
    let at = 14 + n;
    let front = "{'descr'"@ + (": "@ + ("'"@ + descr + "'"@) + ","@);
    assert(front.len() == 13 + n);
    assert(header =~= front + " 'fortran_order'"@ + after);
    assert(header.subrange(at, at + 15) =~= npy::in_quotes(name, '\''));
    assert forall|j: int| 0 <= j < at && #[trigger] header[j] == '\'' implies header.subrange(
        j,
        j + name.len() + 2,
    ) != npy::in_quotes(name, '\'') by {
        let here = header.subrange(j, j + 15);
        let want = npy::in_quotes(name, '\'');
        assert(want[1] == 'f');
        if j < 13 + n {
            assert(header[j] == front[j]);
        }
        if j < 10 {
            assert(here[1] == header[j + 1]);
        } else if j == 10 {
            assert forall|k: int| 0 <= k < descr.len() implies header[10 + 1 + k]
                == #[trigger] descr[k] by {}
            lemma_quoted_apart(header, 10, descr, name);
        } else if j < 11 + n {
            assert(front[j] == descr[j - 11]);
        } else {
            assert(here[1] == header[j + 1]);
        }
    }
    lemma_key_found(header, name, at);
    assert(header.skip(at + 15) =~= after);
    let tail = order + ","@ + rest;
    assert forall|k: int| 0 <= k < order.len() implies {
        let c = #[trigger] tail[k];
        &&& c != '(' && c != '[' && c != ')' && c != ']'
        &&& c != ',' && c != '}'
    } by {
        assert(tail[k] == order[k]);
    }
    lemma_passed(tail, 0, order.len() as int, 0);
    assert(tail[order.len() as int] == ',');
    lemma_value_found(after, order, rest);
}

proof fn lemma_shape(
    descr: Seq<char>,
    order: Seq<char>,
    shape: Seq<char>,
    rest: Seq<char>,
    header: Seq<char>,
)
    requires
        unmarked(descr),
        descr != "shape"@,
        unmarked(order),
        shape.len() > 0,
        !text::white(shape[0]),
        !text::white(shape.last()),
        npy::value_end(shape + ","@ + rest, 0, 0) == shape.len(),
        header == "{'descr'"@ + (": "@ + ("'"@ + descr + "'"@) + ","@ + (" 'fortran_order'"@ + (
        ": "@ + order + ","@ + (" 'shape'"@ + (": "@ + shape + ","@ + rest))))),
    ensures
        npy::dict_entry(header, "shape"@) == Some(shape),
{
    reveal_strlit("{'descr'");
    reveal_strlit("shape");
    reveal_strlit("'");
    reveal_strlit(": ");
    reveal_strlit(",");
    reveal_strlit(" 'fortran_order'");
    reveal_strlit(" 'shape'");
    let name = "shape"@;
    let after = ": "@ + shape + ","@ + rest;
    let (n, m) = (descr.len() as int, order.len() as int);
    let at = 33 + n + m;
    let front = "{'descr'"@ + (": "@ + ("'"@ + descr + "'"@) + ","@);
    let middle = " 'fortran_order'"@ + (": "@ + order + ","@);
    assert(front.len() == 13 + n);
    assert(middle.len() == 19 + m);
    assert(header =~= front + middle + " 'shape'"@ + after);
    assert(header.subrange(at, at + 7) =~= npy::in_quotes(name, '\''));
    assert forall|j: int| 0 <= j < at && #[trigger] header[j] == '\'' implies header.subrange(
        j,
        j + name.len() + 2,
    ) != npy::in_quotes(name, '\'') by {
        let here = header.subrange(j, j + 7);
        let want = npy::in_quotes(name, '\'');
        assert(want[1] == 's');
        if j < 13 + n {
            assert(header[j] == front[j]);
        } else if j < at - 1 {
            assert(header[j] == middle[j - 13 - n]);
        }
        if j < 10 {
            assert(here[1] == header[j + 1]);
        } else if j == 10 {
            assert forall|k: int| 0 <= k < descr.len() implies header[10 + 1 + k]
                == #[trigger] descr[k] by {}
            lemma_quoted_apart(header, 10, descr, name);
        } else if j < 11 + n {
            assert(front[j] == descr[j - 11]);
        } else if j < 31 + n {
            assert(here[1] == header[j + 1]);
        } else if j < 31 + n + m {
            assert(middle[j - 13 - n] == order[j - 31 - n]);
        } else {
            assert(false);
        }
    }
    lemma_key_found(header, name, at);
    assert(header.skip(at + 7) =~= after);
    lemma_value_found(after, shape, rest);
}

/// The pieces that numbers are cut into at their commas.
spec fn cut(sizes: Seq<usize>) -> Seq<Seq<char>> {
    Seq::new(
        sizes.len(),
        |i: int|
            if i == 0 {
                text::decimal(sizes[i] as nat)
            } else {
                seq![' '] + text::decimal(sizes[i] as nat)
            },
    )
}

proof fn lemma_cut(sizes: Seq<usize>)
    requires
        sizes.len() > 0,
    ensures
        text::pieces(numbers(sizes), ',') == cut(sizes),
    decreases sizes.len(),
{
    reveal_strlit(", ");
    let digits = text::decimal(sizes.last() as nat);
    lemma_decimal(sizes.last() as nat);
    if sizes.len() == 1 {
        law_pieces(digits, Seq::empty(), ',');
        assert(cut(sizes) =~= seq![digits]);
    } else {
        let before = sizes.drop_last();
        lemma_cut(before);
        let last = seq![' '] + digits;
        assert forall|i: int| 0 <= i < last.len() implies #[trigger] last[i] != ',' by {
            if i > 0 {
                assert(last[i] == digits[i - 1]);
            }
        }
        lines::law_last_piece(numbers(before), last, ',');
        assert(numbers(sizes) =~= numbers(before) + seq![','] + last);
        assert(cut(sizes) =~= cut(before).push(last));
    }
}

proof fn lemma_cut_sizes(sizes: Seq<usize>)
    ensures
        npy::sizes(cut(sizes)) == Ok::<Seq<usize>, Seq<char>>(sizes),
    decreases sizes.len(),
{
    if sizes.len() == 0 {
        assert(sizes =~= Seq::<usize>::empty());
    } else {
        let before = sizes.drop_last();
        lemma_cut_sizes(before);
        assert(cut(sizes).drop_last() =~= cut(before));
        let v = sizes.last() as nat;
        let digits = text::decimal(v);
        lemma_decimal(v);
        law_decimal_reads_back(v, usize::MAX as nat);
        assert('0' <= digits[0] <= '9' && '0' <= digits[digits.len() - 1] <= '9');
        if sizes.len() == 1 {
            lemma_not_trimmed(digits);
        } else {
            lemma_space_trimmed(seq![' '] + digits, digits);
        }
        assert(before.push(sizes.last()) =~= sizes);
    }
}

/// Numbers hold digits, commas and spaces, and nothing else.
proof fn lemma_numbers(sizes: Seq<usize>)
    ensures
        forall|i: int|
            0 <= i < numbers(sizes).len() ==> {
                let c = #[trigger] numbers(sizes)[i];
                '0' <= c <= '9' || c == ',' || c == ' '
            },
    decreases sizes.len(),
{
    reveal_strlit(", ");
    if sizes.len() > 0 {
        let (all, digits) = (numbers(sizes), text::decimal(sizes.last() as nat));
        let before = numbers(sizes.drop_last());
        lemma_decimal(sizes.last() as nat);
        lemma_numbers(sizes.drop_last());
        assert forall|i: int| 0 <= i < all.len() implies {
            let c = #[trigger] all[i];
            '0' <= c <= '9' || c == ',' || c == ' '
        } by {
            let at = all.len() - digits.len();
            if i >= at {
                assert(all[i] == digits[i - at]);
            } else if i < before.len() {
                assert(all[i] == before[i]);
            }
        }
    }
}

proof fn lemma_shape_read(sizes: Seq<usize>, rest: Seq<char>)
    ensures
        shape_of(sizes).len() > 0,
        !text::white(shape_of(sizes)[0]),
        !text::white(shape_of(sizes).last()),
        npy::value_end(shape_of(sizes) + ","@ + rest, 0, 0) == shape_of(sizes).len(),
        npy::shape_sizes(shape_of(sizes)) == Ok::<Seq<usize>, Seq<char>>(sizes),
{
    reveal_strlit("(");
    reveal_strlit(")");
    reveal_strlit(",");
    let inner = numbers(sizes);
    let shape = shape_of(sizes);
    let all = shape + ","@ + rest;
    lemma_numbers(sizes);
    let close = 1 + inner.len() as int;
    assert forall|k: int| 1 <= k < close implies {
        let c = #[trigger] all[k];
        c != '(' && c != '[' && c != ')' && c != ']'
    } by {
        assert(all[k] == inner[k - 1]);
    }
    assert(all[0] == '(' && all[close] == ')' && all[close + 1] == ',');
    lemma_passed(all, 1, close, 1);
    assert(npy::value_end(all, close + 1, 0) == close + 1);
    assert(npy::value_end(all, close, 1) == npy::value_end(all, close + 1, 0));
    assert(npy::value_end(all, 0, 0) == npy::value_end(all, 1, 1));
    lemma_not_trimmed(shape);
    assert(shape.subrange(1, shape.len() - 1) =~= inner);
    if sizes.len() == 0 {
        law_pieces(inner, Seq::empty(), ',');
        let one = seq![inner];
        assert(one.drop_last() =~= Seq::<Seq<char>>::empty());
        assert(text::trimmed(inner).len() == 0);
        assert(npy::sizes(one.drop_last()) == Ok::<Seq<usize>, Seq<char>>(Seq::empty()));
        assert(sizes =~= Seq::<usize>::empty());
    } else {
        lemma_cut(sizes);
        lemma_cut_sizes(sizes);
    }
}

/// What a header declares.
proof fn lemma_declared(
    descr: Seq<char>,
    order: Seq<char>,
    sizes: Seq<usize>,
    more: Seq<char>,
)
    requires
        writable(descr, order),
    ensures
        ({
            let declared = npy::declared_sizes(header_of(descr, order, shape_of(sizes)) + more);
            if accepted(descr, order, sizes) {
                declared == Ok::<(usize, usize), Seq<char>>((sizes[0], sizes[1]))
            } else {
                declared is Err
            }
        }),
{
    let shape = shape_of(sizes);
    let header = header_of(descr, order, shape) + more;
    let (first, second, third) = parts(descr, order, shape, more);
    lemma_parts(descr, order, shape, more);
    lemma_shape_read(sizes, " }"@ + more);
    lemma_descr(descr, " 'fortran_order'"@ + second, header);
    lemma_order(descr, order, " 'shape'"@ + third, header);
    lemma_shape(descr, order, shape, " }"@ + more, header);
    reveal_strlit("True");
    reveal_strlit("False");
    assert("False"@.len() != "True"@.len());
}

/// The element type and the order can stand in a header.
pub open spec fn writable(descr: Seq<char>, order: Seq<char>) -> bool {
    &&& unmarked(descr)
    &&& descr != "fortran_order"@
    &&& descr != "shape"@
    &&& unmarked(order)
    &&& order.len() > 0
    &&& !text::white(order[0])
    &&& !text::white(order.last())
}

/// Little-endian single precision in C order, with two sizes, the second of
/// them positive.
pub open spec fn accepted(descr: Seq<char>, order: Seq<char>, sizes: Seq<usize>) -> bool {
    descr == "<f4"@ && order == "False"@ && sizes.len() == 2 && sizes[1] > 0
}

/// A header behind a front of known length, and the data behind it.
proof fn lemma_matrix(
    all: Seq<u8>,
    front: Seq<u8>,
    header: Seq<u8>,
    data: Seq<u8>,
)
    requires
        all == front + header + data,
        npy::header_place(all) == Ok::<(int, int), Seq<char>>(
            (front.len() as int, front.len() as int + header.len() as int),
        ),
        vstd::utf8::valid_utf8(header),
    ensures
        match npy::declared_sizes(vstd::utf8::decode_utf8(header)) {
            Err(message) => npy::npy_matrix(all) == Err::<(Seq<u32>, usize), Seq<char>>(message),
            Ok((n, dim)) => if data.len() == n * dim * 4 {
                npy::npy_matrix(all) == Ok::<(Seq<u32>, usize), Seq<char>>((npy::words(data), dim))
            } else {
                npy::npy_matrix(all) is Err
            },
        },
{
    assert(all.subrange(front.len() as int, front.len() as int + header.len() as int) =~= header);
    assert(all.skip(front.len() as int + header.len() as int) =~= data);
}

proof fn lemma_first_version(all: Seq<u8>, minor: u8, header: Seq<u8>, data: Seq<u8>)
    requires
        header.len() < 0x1_0000,
        all == first_version(minor, header, data),
    ensures
        npy::has_magic(all),
        npy::header_place(all) == Ok::<(int, int), Seq<char>>((10, 10 + header.len() as int)),
{
    let front = magic() + seq![
        1u8,
        minor,
        (header.len() % 0x100) as u8,
        (header.len() / 0x100) as u8,
    ];
    assert(all.take(10) =~= front);
    assert forall|i: int| 0 <= i < 10 implies #[trigger] all[i] == front[i] by {
        assert(all[i] == all.take(10)[i]);
    }
    assert(all.take(6) =~= magic());
}

proof fn lemma_later_version(all: Seq<u8>, major: u8, minor: u8, header: Seq<u8>, data: Seq<u8>)
    requires
        major == 2 || major == 3,
        header.len() < 0x1_0000_0000,
        all == later_version(major, minor, header, data),
    ensures
        npy::has_magic(all),
        npy::header_place(all) == Ok::<(int, int), Seq<char>>((12, 12 + header.len() as int)),
{
    let front = magic() + seq![
        major,
        minor,
        (header.len() % 0x100) as u8,
        (header.len() / 0x100 % 0x100) as u8,
        (header.len() / 0x1_0000 % 0x100) as u8,
        (header.len() / 0x100_0000) as u8,
    ];
    assert(all.take(12) =~= front);
    assert forall|i: int| 0 <= i < 12 implies #[trigger] all[i] == front[i] by {
        assert(all[i] == all.take(12)[i]);
    }
    assert(all.take(6) =~= magic());
}

proof fn lemma_file(
    bytes: Seq<u8>,
    major: u8,
    minor: u8,
    header: Seq<char>,
    data: Seq<u8>,
)
    requires
        is_file(bytes, major, minor, header, data),
    ensures
        npy::has_magic(bytes),
        match npy::declared_sizes(header) {
            Err(message) => npy::npy_matrix(bytes) == Err::<(Seq<u32>, usize), Seq<char>>(message),
            Ok((n, dim)) => if data.len() == n * dim * 4 {
                npy::npy_matrix(bytes) == Ok::<(Seq<u32>, usize), Seq<char>>(
                    (npy::words(data), dim),
                )
            } else {
                npy::npy_matrix(bytes) is Err
            },
        },
{
    let coded = vstd::utf8::encode_utf8(header);
    vstd::utf8::encode_utf8_valid_utf8(header);
    vstd::utf8::encode_utf8_decode_utf8(header);
    if major == 1 {
        let front = magic() + seq![
            1u8,
            minor,
            (coded.len() % 0x100) as u8,
            (coded.len() / 0x100) as u8,
        ];
        lemma_first_version(bytes, minor, coded, data);
        lemma_matrix(bytes, front, coded, data);
    } else {
        let front = magic() + seq![
            major,
            minor,
            (coded.len() % 0x100) as u8,
            (coded.len() / 0x100 % 0x100) as u8,
            (coded.len() / 0x1_0000 % 0x100) as u8,
            (coded.len() / 0x100_0000) as u8,
        ];
        lemma_later_version(bytes, major, minor, coded, data);
        lemma_matrix(bytes, front, coded, data);
    }
}

/// Which `.npy` files load: those that declare little-endian single precision,
/// C order and two sizes, the second positive, and hold that many elements;
/// no others. What is loaded are the words behind the header.
pub proof fn law_which_files_load(
    name: &str,
    bytes: &[u8],
    raw_dim: Option<usize>,
    r: Result<(Vec<u32>, usize), String>,
    descr: Seq<char>,
    order: Seq<char>,
    sizes: Seq<usize>,
    more: Seq<char>,
    data: Seq<u8>,
    major: u8,
    minor: u8,
)
    requires
        writable(descr, order),
        is_file(bytes@, major, minor, header_of(descr, order, shape_of(sizes)) + more, data),
        call_ensures(npy::load_matrix, (name, bytes, raw_dim), r),
    ensures
        r is Ok <==> accepted(descr, order, sizes) && data.len() == sizes[0] * sizes[1] * 4,
        r matches Ok((elements, columns)) ==> {
            &&& columns == sizes[1]
            &&& elements@.len() == sizes[0] * sizes[1]
            &&& forall|i: int|
                0 <= i < elements@.len() ==> #[trigger] elements@[i] == data[4 * i] + 0x100 * data[4
                    * i + 1] + 0x1_0000 * data[4 * i + 2] + 0x100_0000 * data[4 * i + 3]
        },
{
    lemma_declared(descr, order, sizes, more);
    lemma_file(
        bytes@,
        major,
        minor,
        header_of(descr, order, shape_of(sizes)) + more,
        data,
    );
}

/// Every well-formed `.npy` file loads: whatever the numbers of rows and
/// dimensions, the version, and what follows the declaration in the header,
/// exactly the elements that were written are read back, with their dimension.
pub proof fn law_written_npy_loads(
    name: &str,
    bytes: &[u8],
    raw_dim: Option<usize>,
    r: Result<(Vec<u32>, usize), String>,
    data: Seq<u32>,
    n: usize,
    dim: usize,
    major: u8,
    minor: u8,
    more: Seq<char>,
)
    requires
        dim > 0,
        data.len() == n * dim,
        is_file(
            bytes@,
            major,
            minor,
            "{'descr': '<f4', 'fortran_order': False, 'shape': ("@ + text::decimal(n as nat) + ", "@
                + text::decimal(dim as nat) + "), }"@ + more,
            npy::word_bytes(data),
        ),
        call_ensures(npy::load_matrix, (name, bytes, raw_dim), r),
    ensures
        r matches Ok((elements, columns)) && elements@ == data && columns == dim,
{
    let sizes = seq![n, dim];
    lemma_plain_header(n, dim);
    let header = header_of("<f4"@, "False"@, shape_of(sizes)) + more;
    npy::law_words_round_trip(data);
    reveal_strlit("<f4");
    reveal_strlit("False");
    reveal_strlit("fortran_order");
    reveal_strlit("shape");
    assert("<f4"@.len() == 3 && "fortran_order"@.len() == 13 && "shape"@.len() == 5);
    lemma_declared("<f4"@, "False"@, sizes, more);
    lemma_file(bytes@, major, minor, header, npy::word_bytes(data));
    assert(npy::word_bytes(data).len() == n * dim * 4);
}

proof fn lemma_plain_header(n: usize, dim: usize)
    ensures
        header_of("<f4"@, "False"@, shape_of(seq![n, dim]))
            == "{'descr': '<f4', 'fortran_order': False, 'shape': ("@ + text::decimal(n as nat)
            + ", "@ + text::decimal(dim as nat) + "), }"@,
{
    reveal_strlit("<f4");
    reveal_strlit("False");
    reveal_strlit("(");
    reveal_strlit(")");
    reveal_strlit("{'descr': '");
    reveal_strlit("', 'fortran_order': ");
    reveal_strlit(", 'shape': ");
    reveal_strlit(", }");
    reveal_strlit("), }");
    reveal_strlit("{'descr': '<f4', 'fortran_order': False, 'shape': (");
    let sizes = seq![n, dim];
    let (a, b) = (text::decimal(n as nat), text::decimal(dim as nat));
    assert(sizes.drop_last() =~= seq![n]);
    assert(numbers(seq![n]) == a);
    assert(numbers(sizes) == a + ", "@ + b);
    let front = "{'descr': '"@ + "<f4"@ + "', 'fortran_order': "@ + "False"@ + ", 'shape': "@;
    assert(front + "("@ =~= "{'descr': '<f4', 'fortran_order': False, 'shape': ("@);
    assert(header_of("<f4"@, "False"@, shape_of(sizes)) =~= (front + "("@) + a + ", "@ + b
        + "), }"@);
}

/// A file of another version is refused, and so is one whose header is longer
/// than the file.
pub proof fn law_unknown_and_cut_files_are_refused(
    name: &str,
    bytes: &[u8],
    raw_dim: Option<usize>,
    r: Result<(Vec<u32>, usize), String>,
)
    requires
        bytes@.len() >= 10,
        bytes@.take(6) == magic(),
        call_ensures(npy::load_matrix, (name, bytes, raw_dim), r),
    ensures
        bytes@[6] == 0 || bytes@[6] > 3 ==> r is Err,
        bytes@[6] == 1 && 10 + bytes@[8] + 0x100 * bytes@[9] > bytes@.len() ==> r is Err,
        (bytes@[6] == 2 || bytes@[6] == 3) && (bytes@.len() < 12 || 12 + bytes@[8] + 0x100
            * bytes@[9] + 0x1_0000 * bytes@[10] + 0x100_0000 * bytes@[11] > bytes@.len())
            ==> r is Err,
{
}

/// Raw little-endian words load as the elements that were written, where the
/// dimension is given and the rows are whole; without a dimension they do not.
pub proof fn law_written_raw_loads(
    name: &str,
    bytes: &[u8],
    raw_dim: Option<usize>,
    r: Result<(Vec<u32>, usize), String>,
    data: Seq<u32>,
    n: nat,
)
    requires
        bytes@ == npy::word_bytes(data),
        bytes@.len() < 6 || bytes@.take(6) != magic(),
        raw_dim matches Some(dim) ==> dim > 0 && data.len() == n * dim,
        call_ensures(npy::load_matrix, (name, bytes, raw_dim), r),
    ensures
        r is Ok <==> raw_dim is Some,
        r matches Ok((elements, columns)) ==> elements@ == data && Some(columns) == raw_dim,
{
    npy::law_words_round_trip(data);
    if raw_dim is Some {
        let dim = raw_dim->0 as nat;
        assert(bytes@.len() == n * (4 * dim)) by (nonlinear_arith)
            requires
                bytes@.len() == 4 * data.len(),
                data.len() == n * dim,
        ;
        vstd::arithmetic::div_mod::lemma_mod_multiples_basic(n as int, (4 * dim) as int);
    }
}

} // verus!
