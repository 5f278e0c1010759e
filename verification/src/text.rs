//! Text over character sequences: trimming, splitting, numbers, ordering.

use vstd::prelude::*;
use vstd::slice::slice_subrange;

verus! {

// ---------------------------------------------------------------------------
// Characters and strings
// ---------------------------------------------------------------------------

/// `String::push` appends one character.
pub assume_specification[ String::push ](s: &mut String, c: char)
    ensures
        final(s)@ == old(s)@.push(c),
;

/// The characters of a text.
pub fn chars_of(s: &str) -> (r: Vec<char>)
    ensures
        r@ == s@,
{
    let n = s.unicode_len();
    let mut out: Vec<char> = Vec::new();
    for c in it: s.chars()
        invariant
            out@ == s@.take(it.index()),
            it.seq() == s@,
    {
        out.push(c);
        assert(s@.take(it.index() + 1) =~= s@.take(it.index()).push(c));
    }
    assert(s@.take(n as int) =~= s@);
    out
}

/// The text that some characters spell.
pub fn string_of(cs: &[char]) -> (r: String)
    ensures
        r@ == cs@,
{
    let mut out = String::new();
    let mut i: usize = 0;
    while i < cs.len()
        invariant
            i <= cs@.len(),
            out@ == cs@.take(i as int),
        decreases cs@.len() - i,
    {
        out.push(cs[i]);
        assert(cs@.take(i + 1) =~= cs@.take(i as int).push(cs@[i as int]));
        i = i + 1;
    }
    assert(cs@.take(i as int) =~= cs@);
    out
}

/// Append a text to another.
pub fn push_text(out: &mut String, tail: &str)
    ensures
        final(out)@ == old(out)@ + tail@,
{
    out.append(tail);
}

/// Whether two texts are the same.
pub fn same_text(a: &str, b: &str) -> (r: bool)
    ensures
        r == (a@ == b@),
{
    a.to_owned() == b.to_owned()
}

/// Whether two character strings are the same.
pub fn same_chars(a: &[char], b: &[char]) -> (r: bool)
    ensures
        r == (a@ == b@),
{
    if a.len() != b.len() {
        return false;
    }
    let mut i: usize = 0;
    while i < a.len()
        invariant
            i <= a@.len(),
            a@.len() == b@.len(),
            forall|k: int| 0 <= k < i ==> a@[k] == b@[k],
        decreases a@.len() - i,
    {
        if a[i] != b[i] {
            return false;
        }
        i = i + 1;
    }
    assert(a@ =~= b@);
    true
}

/// The texts of a list.
pub open spec fn texts(list: Seq<String>) -> Seq<Seq<char>> {
    list.map_values(|s: String| s@)
}

/// The characters of an optional text.
pub open spec fn opt_text(s: Option<String>) -> Option<Seq<char>> {
    match s {
        Some(s) => Some(s@),
        None => None,
    }
}

/// The characters of an optional text slice.
pub open spec fn opt_str(s: Option<&str>) -> Option<Seq<char>> {
    match s {
        Some(s) => Some(s@),
        None => None,
    }
}

/// An optional text as a slice.
pub fn as_slice(s: &Option<String>) -> (r: Option<&str>)
    ensures
        opt_str(r) == opt_text(*s),
{
    match s {
        Some(s) => Some(s.as_str()),
        None => None,
    }
}

/// A copy of an optional text.
pub fn copy_opt(s: &Option<String>) -> (r: Option<String>)
    ensures
        r == *s,
{
    match s {
        Some(s) => Some(s.clone()),
        None => None,
    }
}

/// A copy of a list of texts.
pub fn copy_list(list: &Vec<String>) -> (r: Vec<String>)
    ensures
        texts(r@) == texts(list@),
{
    let mut out: Vec<String> = Vec::new();
    let mut i: usize = 0;
    while i < list.len()
        invariant
            i <= list@.len(),
            out@.len() == i,
            forall|k: int| 0 <= k < i ==> (#[trigger] out@[k])@ == list@[k]@,
        decreases list@.len() - i,
    {
        out.push(list[i].clone());
        i = i + 1;
    }
    assert(texts(out@) =~= texts(list@));
    out
}

/// What Rust's `Debug` format writes for a text: the text in double quotes, with
/// what cannot stand there escaped.
pub uninterp spec fn quoted(s: Seq<char>) -> Seq<char>;

/// Formats a text with `<str as Debug>`.
#[verifier::external_body]
pub(crate) fn quote(s: &str) -> (r: String)
    ensures
        r@ == quoted(s@),
{
    format!("{s:?}")
}

// ---------------------------------------------------------------------------
// Trimming
// ---------------------------------------------------------------------------

/// Whether a character is white space, as Unicode defines it.
pub open spec fn is_space(c: char) -> bool {
    ||| 0x9 <= c as u32 <= 0xd
    ||| c as u32 == 0x20
    ||| c as u32 == 0x85
    ||| c as u32 == 0xa0
    ||| c as u32 == 0x1680
    ||| 0x2000 <= c as u32 <= 0x200a
    ||| c as u32 == 0x2028
    ||| c as u32 == 0x2029
    ||| c as u32 == 0x202f
    ||| c as u32 == 0x205f
    ||| c as u32 == 0x3000
}

/// Whether a character is white space.
pub fn is_white(c: char) -> (r: bool)
    ensures
        r == is_space(c),
{
    let u = c as u32;
    (0x9 <= u && u <= 0xd) || u == 0x20 || u == 0x85 || u == 0xa0 || u == 0x1680 || (0x2000 <= u && u <= 0x200a)
        || u == 0x2028 || u == 0x2029 || u == 0x202f || u == 0x205f || u == 0x3000
}

/// `s` without its leading white space.
pub open spec fn trim_start(s: Seq<char>) -> Seq<char>
    decreases s.len(),
{
    if s.len() > 0 && is_space(s[0]) {
        trim_start(s.subrange(1, s.len() as int))
    } else {
        s
    }
}

/// `s` without its trailing white space.
pub open spec fn trim_end(s: Seq<char>) -> Seq<char>
    decreases s.len(),
{
    if s.len() > 0 && is_space(s[s.len() - 1]) {
        trim_end(s.subrange(0, s.len() - 1))
    } else {
        s
    }
}

/// `s` without its leading and trailing white space.
pub open spec fn trim(s: Seq<char>) -> Seq<char> {
    trim_end(trim_start(s))
}

/// A text that neither begins nor ends with white space is trimmed already.
pub proof fn lemma_trimmed_already(s: Seq<char>)
    requires
        s.len() > 0,
        !is_space(s[0]),
        !is_space(s.last()),
    ensures
        trim(s) == s,
{
}

/// Characters without their leading and trailing white space.
pub fn trimmed(s: &[char]) -> (r: &[char])
    ensures
        r@ == trim(s@),
{
    let mut i: usize = 0;
    assert(s@.subrange(0, s@.len() as int) =~= s@);
    while i < s.len() && is_white(s[i])
        invariant
            i <= s@.len(),
            trim_start(s@) == trim_start(s@.subrange(i as int, s@.len() as int)),
        decreases s@.len() - i,
    {
        proof {
            let rest = s@.subrange(i as int, s@.len() as int);
            assert(rest.subrange(1, rest.len() as int) =~= s@.subrange(i + 1, s@.len() as int));
        }
        i = i + 1;
    }
    let ghost front = s@.subrange(i as int, s@.len() as int);
    assert(trim_start(s@) == front);
    let mut j: usize = s.len();
    while j > i && is_white(s[j - 1])
        invariant
            i <= j <= s@.len(),
            trim_end(front) == trim_end(s@.subrange(i as int, j as int)),
        decreases j,
    {
        proof {
            let rest = s@.subrange(i as int, j as int);
            assert(rest.subrange(0, rest.len() - 1) =~= s@.subrange(i as int, j - 1));
        }
        j = j - 1;
    }
    slice_subrange(s, i, j)
}

/// The characters of a text without its leading and trailing white space.
pub fn trimmed_chars(s: &str) -> (r: Vec<char>)
    ensures
        r@ == trim(s@),
{
    let all = chars_of(s);
    let inner = trimmed(all.as_slice());
    vstd::slice::slice_to_vec(inner)
}

/// A text without its leading and trailing white space.
pub fn trimmed_text(s: &str) -> (r: String)
    ensures
        r@ == trim(s@),
{
    let inner = trimmed_chars(s);
    string_of(inner.as_slice())
}

// ---------------------------------------------------------------------------
// Searching and splitting
// ---------------------------------------------------------------------------

/// The index of the first `c` at or behind `from`, or the length.
pub open spec fn next_char(s: Seq<char>, c: char, from: int) -> int
    decreases s.len() - from,
{
    if from < 0 || from >= s.len() {
        s.len() as int
    } else if s[from] == c {
        from
    } else {
        next_char(s, c, from + 1)
    }
}

/// The index of the first `c`, or the length.
pub open spec fn first_char(s: Seq<char>, c: char) -> int {
    next_char(s, c, 0)
}

/// Facts about the first `c` at or behind `from`.
pub proof fn lemma_next_char(s: Seq<char>, c: char, from: int)
    requires
        0 <= from <= s.len(),
    ensures
        from <= next_char(s, c, from) <= s.len(),
        next_char(s, c, from) < s.len() ==> s[next_char(s, c, from)] == c,
        forall|k: int| from <= k < next_char(s, c, from) ==> s[k] != c,
    decreases s.len() - from,
{
    if from < s.len() && s[from] != c {
        lemma_next_char(s, c, from + 1);
    }
}

/// Find the first `c` at or behind `from`.
pub fn find_char(s: &[char], c: char, from: usize) -> (r: usize)
    requires
        from <= s@.len(),
    ensures
        r == next_char(s@, c, from as int),
        from <= r <= s@.len(),
        r < s@.len() ==> s@[r as int] == c,
        forall|k: int| from <= k < r ==> s@[k] != c,
{
    let mut i = from;
    while i < s.len()
        invariant
            from <= i <= s@.len(),
            next_char(s@, c, from as int) == next_char(s@, c, i as int),
            forall|k: int| from <= k < i ==> s@[k] != c,
        decreases s@.len() - i,
    {
        if s[i] == c {
            return i;
        }
        i = i + 1;
    }
    i
}

/// Whether `c` occurs.
pub fn has_char(s: &[char], c: char) -> (r: bool)
    ensures
        r == s@.contains(c),
{
    let at = find_char(s, c, 0);
    at < s.len()
}

/// The index of the last `c` in front of `end`, or -1.
pub open spec fn last_char(s: Seq<char>, c: char, end: int) -> int
    decreases end,
{
    if end <= 0 || end > s.len() {
        -1
    } else if s[end - 1] == c {
        end - 1
    } else {
        last_char(s, c, end - 1)
    }
}

/// Facts about the last `c` in front of `end`.
pub proof fn lemma_last_char(s: Seq<char>, c: char, end: int)
    requires
        0 <= end <= s.len(),
    ensures
        -1 <= last_char(s, c, end) < end,
        last_char(s, c, end) >= 0 ==> s[last_char(s, c, end)] == c,
        forall|k: int| last_char(s, c, end) < k < end ==> #[trigger] s[k] != c,
    decreases end,
{
    if end > 0 && s[end - 1] != c {
        lemma_last_char(s, c, end - 1);
    }
}

/// Find the last `c`.
pub fn rfind_char(s: &[char], c: char) -> (r: Option<usize>)
    ensures
        match r {
            Some(i) => last_char(s@, c, s@.len() as int) == i && i < s@.len() && s@[i as int] == c,
            None => last_char(s@, c, s@.len() as int) == -1 && !s@.contains(c),
        },
{
    let mut j: usize = s.len();
    while j > 0
        invariant
            j <= s@.len(),
            last_char(s@, c, s@.len() as int) == last_char(s@, c, j as int),
            forall|k: int| j <= k < s@.len() ==> s@[k] != c,
        decreases j,
    {
        if s[j - 1] == c {
            return Some(j - 1);
        }
        j = j - 1;
    }
    None
}

/// Whether `c` occurs more than once.
pub open spec fn repeats(s: Seq<char>, c: char) -> bool {
    exists|i: int, j: int| 0 <= i < j < s.len() && s[i] == c && s[j] == c
}

/// A character occurs more than once exactly if it occurs behind its first
/// occurrence.
pub proof fn lemma_repeats(s: Seq<char>, c: char)
    ensures
        0 <= first_char(s, c) <= s.len(),
        repeats(s, c) == (first_char(s, c) < s.len() && next_char(s, c, first_char(s, c) + 1) < s.len()),
{
    lemma_next_char(s, c, 0);
    let first = first_char(s, c);
    if first < s.len() {
        lemma_next_char(s, c, first + 1);
        let second = next_char(s, c, first + 1);
        if second < s.len() {
            assert(s[first] == c && s[second] == c);
        }
    }
}

/// The first occurrence of a character is where none stands before.
pub proof fn lemma_first_char_at(s: Seq<char>, c: char, at: int)
    requires
        0 <= at < s.len(),
        s[at] == c,
        forall|k: int| 0 <= k < at ==> s[k] != c,
    ensures
        first_char(s, c) == at,
{
    lemma_next_char(s, c, 0);
}

/// The pieces of `s` between the separators, from `from` on. Without a separator
/// there is one piece.
pub open spec fn pieces(s: Seq<char>, sep: char, from: int) -> Seq<Seq<char>>
    decreases s.len() - from,
{
    let end = next_char(s, sep, from);
    if from < 0 || from > s.len() || end < from || end >= s.len() {
        seq![s.subrange(from, s.len() as int)]
    } else {
        seq![s.subrange(from, end)] + pieces(s, sep, end + 1)
    }
}

/// The pieces of `s` between the separators.
pub open spec fn split(s: Seq<char>, sep: char) -> Seq<Seq<char>> {
    pieces(s, sep, 0)
}

/// A character that is no separator stands in one of the pieces.
pub proof fn lemma_in_a_piece(s: Seq<char>, sep: char, from: int, i: int)
    requires
        0 <= from <= i < s.len(),
        s[i] != sep,
    ensures
        exists|k: int|
            0 <= k < pieces(s, sep, from).len() && (#[trigger] pieces(s, sep, from)[k]).contains(s[i]),
    decreases s.len() - from,
{
    lemma_next_char(s, sep, from);
    let end = next_char(s, sep, from);
    let all = pieces(s, sep, from);
    if i < end {
        assert(all[0] == s.subrange(from, end));
        assert(all[0][i - from] == s[i]);
        assert(all[0].contains(s[i]));
    } else {
        lemma_in_a_piece(s, sep, end + 1, i);
        let rest = pieces(s, sep, end + 1);
        let k = choose|k: int| 0 <= k < rest.len() && (#[trigger] rest[k]).contains(s[i]);
        assert(all[k + 1] == rest[k]);
    }
}

/// The character strings of a list.
pub open spec fn char_lists(list: Seq<Vec<char>>) -> Seq<Seq<char>> {
    list.map_values(|v: Vec<char>| v@)
}

/// Split at a separator.
pub fn split_chars(s: &[char], sep: char) -> (r: Vec<Vec<char>>)
    ensures
        char_lists(r@) == split(s@, sep),
        r@.len() > 0,
{
    let mut out: Vec<Vec<char>> = Vec::new();
    let mut from: usize = 0;
    assert(char_lists(out@) + split(s@, sep) =~= split(s@, sep));
    loop
        invariant
            from <= s@.len(),
            char_lists(out@) + pieces(s@, sep, from as int) == split(s@, sep),
        decreases s@.len() - from,
    {
        let end = find_char(s, sep, from);
        let ghost before = char_lists(out@);
        out.push(vstd::slice::slice_to_vec(slice_subrange(s, from, end)));
        proof {
            let piece = s@.subrange(from as int, end as int);
            assert(char_lists(out@) =~= before.push(piece));
            if end >= s@.len() {
                assert(before + seq![piece] =~= before.push(piece));
            } else {
                let rest = pieces(s@, sep, end + 1);
                assert(before + (seq![piece] + rest) =~= before.push(piece) + rest);
            }
        }
        if end >= s.len() {
            return out;
        }
        from = end + 1;
    }
}

/// An ASCII letter in lower case; any other character as it is.
pub open spec fn lower(c: char) -> char {
    if 'A' <= c && c <= 'Z' {
        (c as u32 + 32) as char
    } else {
        c
    }
}

/// A text with its ASCII letters in lower case.
pub open spec fn lowered(s: Seq<char>) -> Seq<char> {
    s.map_values(|c: char| lower(c))
}

/// An ASCII letter in lower case; any other character as it is.
pub fn lower_char(c: char) -> (r: char)
    ensures
        r == lower(c),
{
    if 'A' <= c && c <= 'Z' {
        ((c as u8) + 32) as char
    } else {
        c
    }
}

/// Characters with their ASCII letters in lower case.
pub fn lowered_chars(s: &[char]) -> (r: Vec<char>)
    ensures
        r@ == lowered(s@),
{
    let mut out: Vec<char> = Vec::new();
    let mut i: usize = 0;
    while i < s.len()
        invariant
            i <= s@.len(),
            out@.len() == i,
            forall|k: int| 0 <= k < i ==> #[trigger] out@[k] == lower(s@[k]),
        decreases s@.len() - i,
    {
        out.push(lower_char(s[i]));
        i = i + 1;
    }
    assert(out@ =~= lowered(s@));
    out
}

/// Three texts in a row.
pub fn concat3(a: &str, b: &str, c: &str) -> (r: String)
    ensures
        r@ == a@ + b@ + c@,
{
    let mut out = a.to_owned();
    push_text(&mut out, b);
    push_text(&mut out, c);
    out
}

/// Five texts in a row.
pub fn concat5(a: &str, b: &str, c: &str, d: &str, e: &str) -> (r: String)
    ensures
        r@ == a@ + b@ + c@ + d@ + e@,
{
    let mut out = concat3(a, b, c);
    push_text(&mut out, d);
    push_text(&mut out, e);
    out
}

/// Seven texts in a row.
pub fn concat7(a: &str, b: &str, c: &str, d: &str, e: &str, f: &str, g: &str) -> (r: String)
    ensures
        r@ == a@ + b@ + c@ + d@ + e@ + f@ + g@,
{
    let mut out = concat5(a, b, c, d, e);
    push_text(&mut out, f);
    push_text(&mut out, g);
    out
}

/// Whether `s` begins with `head`.
pub fn starts_with(s: &[char], head: &[char]) -> (r: bool)
    ensures
        r == head@.is_prefix_of(s@),
{
    if s.len() < head.len() {
        return false;
    }
    same_chars(slice_subrange(s, 0, head.len()), head)
}

/// Whether `s` begins with a text.
pub fn starts_with_text(s: &[char], head: &str) -> (r: bool)
    ensures
        r == head@.is_prefix_of(s@),
{
    let cs = chars_of(head);
    starts_with(s, cs.as_slice())
}

/// Whether a text occurs in another.
pub open spec fn has_part(s: Seq<char>, part: Seq<char>) -> bool {
    exists|i: int| 0 <= i <= s.len() - part.len() && #[trigger] s.subrange(i, i + part.len()) == part
}

/// Whether a text occurs in another.
pub fn contains_text(s: &[char], part: &str) -> (r: bool)
    ensures
        r == has_part(s@, part@),
{
    let want = chars_of(part);
    let n = want.len();
    if n > s.len() {
        return false;
    }
    let last = s.len() - n;
    let mut i: usize = 0;
    while i < last
        invariant
            n == want@.len(),
            want@ == part@,
            last + n == s.len(),
            i <= last,
            forall|k: int| 0 <= k < i ==> #[trigger] s@.subrange(k, k + n) != part@,
        decreases last - i,
    {
        if same_chars(slice_subrange(s, i, i + n), want.as_slice()) {
            return true;
        }
        i = i + 1;
    }
    same_chars(slice_subrange(s, last, last + n), want.as_slice())
}

/// The texts of a list with a separator between them.
pub open spec fn join(parts: Seq<Seq<char>>, sep: Seq<char>) -> Seq<char>
    decreases parts.len(),
{
    if parts.len() == 0 {
        Seq::empty()
    } else if parts.len() == 1 {
        parts[0]
    } else {
        join(parts.drop_last(), sep) + sep + parts.last()
    }
}

/// Write the texts of a list with a separator between them.
pub fn joined(parts: &Vec<String>, sep: &str) -> (r: String)
    ensures
        r@ == join(texts(parts@), sep@),
{
    let mut out = String::new();
    let mut i: usize = 0;
    let ghost all = texts(parts@);
    while i < parts.len()
        invariant
            all == texts(parts@),
            i <= parts@.len(),
            out@ == join(all.take(i as int), sep@),
        decreases parts@.len() - i,
    {
        proof {
            let longer = all.take(i + 1);
            assert(longer.drop_last() =~= all.take(i as int));
            assert(longer.last() == parts@[i as int]@);
        }
        if i > 0 {
            push_text(&mut out, sep);
        }
        push_text(&mut out, parts[i].as_str());
        proof {
            if i == 0 {
                assert(out@ =~= parts@[0]@);
            }
        }
        i = i + 1;
    }
    assert(all.take(i as int) =~= all);
    out
}

// ---------------------------------------------------------------------------
// Numbers
// ---------------------------------------------------------------------------

/// Whether a character is a decimal digit.
pub open spec fn is_digit(c: char) -> bool {
    '0' <= c <= '9'
}

/// Whether all characters are decimal digits.
pub open spec fn all_digits(s: Seq<char>) -> bool {
    forall|i: int| 0 <= i < s.len() ==> is_digit(#[trigger] s[i])
}

/// The number that decimal digits spell.
pub open spec fn dec_value(s: Seq<char>) -> nat
    decreases s.len(),
{
    if s.len() == 0 {
        0
    } else {
        dec_value(s.drop_last()) * 10 + (s.last() as nat - '0' as nat) as nat
    }
}

/// The number that a text spells: decimal digits, with a plus sign in front if
/// need be.
pub open spec fn number(s: Seq<char>) -> Option<nat> {
    let digits = if s.len() > 0 && s[0] == '+' {
        s.subrange(1, s.len() as int)
    } else {
        s
    };
    if digits.len() == 0 || !all_digits(digits) {
        None
    } else {
        Some(dec_value(digits))
    }
}

/// The number that a text spells, if it is not above `max`.
pub open spec fn number_up_to(s: Seq<char>, max: int) -> Option<nat> {
    match number(s) {
        Some(n) => if n <= max {
            Some(n)
        } else {
            None
        },
        None => None,
    }
}

/// Whether all characters are decimal digits.
pub fn only_digits(s: &[char]) -> (r: bool)
    ensures
        r == all_digits(s@),
{
    let mut i: usize = 0;
    while i < s.len()
        invariant
            i <= s@.len(),
            forall|k: int| 0 <= k < i ==> is_digit(#[trigger] s@[k]),
        decreases s@.len() - i,
    {
        if s[i] < '0' || s[i] > '9' {
            assert(!is_digit(s@[i as int]));
            return false;
        }
        i = i + 1;
    }
    true
}

/// Read a number that is not above `max`.
pub fn parse_number(s: &[char], max: u64) -> (r: Option<u64>)
    ensures
        match r {
            Some(v) => number_up_to(s@, max as int) == Some(v as nat) && v <= max,
            None => number_up_to(s@, max as int) is None,
        },
{
    let digits = if s.len() > 0 && s[0] == '+' {
        slice_subrange(s, 1, s.len())
    } else {
        s
    };
    if digits.len() == 0 || !only_digits(digits) {
        return None;
    }
    let mut v: u64 = 0;
    let mut over = false;
    let mut i: usize = 0;
    while i < digits.len()
        invariant
            i <= digits@.len(),
            all_digits(digits@),
            over ==> dec_value(digits@.take(i as int)) > max,
            !over ==> v == dec_value(digits@.take(i as int)) && v <= max,
        decreases digits@.len() - i,
    {
        proof {
            assert(digits@.take(i + 1).drop_last() =~= digits@.take(i as int));
            assert(is_digit(digits@[i as int]));
        }
        let d = digits[i] as u64 - '0' as u64;
        if !over {
            if v > max / 10 || d > max - v * 10 {
                over = true;
            } else {
                v = v * 10 + d;
            }
        }
        i = i + 1;
    }
    assert(digits@.take(i as int) =~= digits@);
    if over {
        None
    } else {
        Some(v)
    }
}

/// The decimal digit of a number below ten.
pub open spec fn digit(n: nat) -> char {
    ('0' as u32 + n) as char
}

/// A number in decimal.
pub open spec fn dec(n: nat) -> Seq<char>
    decreases n,
{
    if n < 10 {
        seq![digit(n)]
    } else {
        dec(n / 10).push(digit(n % 10))
    }
}

/// A number in decimal is digits, at least one, and spells the number.
pub proof fn lemma_dec_digits(n: nat)
    ensures
        all_digits(dec(n)),
        dec(n).len() > 0,
        dec_value(dec(n)) == n,
    decreases n,
{
    let s = dec(n);
    if n < 10 {
        assert(s.drop_last() =~= Seq::<char>::empty());
        assert(dec_value(Seq::<char>::empty()) == 0);
        assert(s.last() == digit(n));
    } else {
        lemma_dec_digits(n / 10);
        assert(s.drop_last() =~= dec(n / 10));
        assert(s.last() == digit(n % 10));
    }
}

fn digit_char(n: u8) -> (r: char)
    requires
        n < 10,
    ensures
        r == digit(n as nat),
{
    (48 + n) as char
}

/// Append a number in decimal.
pub fn push_dec(out: &mut String, n: u64)
    ensures
        final(out)@ == old(out)@ + dec(n as nat),
{
    push_wide_dec(out, n as u128);
}

/// Append a wide number in decimal.
pub fn push_wide_dec(out: &mut String, n: u128)
    ensures
        final(out)@ == old(out)@ + dec(n as nat),
    decreases n,
{
    let ghost before = out@;
    if n >= 10 {
        push_wide_dec(out, n / 10);
        out.push(digit_char((n % 10) as u8));
        assert(out@ =~= before + dec(n as nat));
    } else {
        out.push(digit_char(n as u8));
        assert(out@ =~= before + dec(n as nat));
    }
}

/// The hexadecimal digit of a number below sixteen.
pub open spec fn hex_digit(n: nat) -> char {
    if n < 10 {
        ('0' as u32 + n) as char
    } else {
        ('a' as u32 + n - 10) as char
    }
}

/// The lowest `width` hexadecimal digits of a number.
pub open spec fn hex(n: nat, width: nat) -> Seq<char>
    decreases width,
{
    if width == 0 {
        Seq::empty()
    } else {
        hex(n / 16, (width - 1) as nat).push(hex_digit(n % 16))
    }
}

fn hex_char(n: u8) -> (r: char)
    requires
        n < 16,
    ensures
        r == hex_digit(n as nat),
{
    if n < 10 {
        (48 + n) as char
    } else {
        (87 + n) as char
    }
}

/// Append the lowest `width` hexadecimal digits of a number.
pub fn push_hex(out: &mut String, n: u64, width: u8)
    ensures
        final(out)@ == old(out)@ + hex(n as nat, width as nat),
    decreases width,
{
    let ghost before = out@;
    if width > 0 {
        push_hex(out, n / 16, width - 1);
        out.push(hex_char((n % 16) as u8));
    }
    assert(out@ =~= before + hex(n as nat, width as nat));
}

// ---------------------------------------------------------------------------
// Laws
// ---------------------------------------------------------------------------

/// A number is written with its last digit last, in decimal and in hexadecimal.
pub proof fn law_numbers_are_written_out(n: nat, d: nat, width: nat)
    ensures
        d < 10 ==> dec(d) == seq![(48 + d) as char],
        d < 10 && n > 0 ==> dec(n * 10 + d) == dec(n).push((48 + d) as char),
        hex(n, 0).len() == 0,
        d < 10 ==> hex(n * 16 + d, width + 1) == hex(n, width).push((48 + d) as char),
        10 <= d < 16 ==> hex(n * 16 + d, width + 1) == hex(n, width).push((87 + d) as char),
{
    if d < 10 && n > 0 {
        assert((n * 10 + d) / 10 == n && (n * 10 + d) % 10 == d);
    }
    if d < 16 {
        assert((n * 16 + d) / 16 == n && (n * 16 + d) % 16 == d);
    }
}

/// A number is read from its digits, with or without a plus sign, and from nothing else.
pub proof fn law_numbers_are_read_back(n: nat, s: Seq<char>, i: int)
    ensures
        number(dec(n)) == Some(n),
        number(seq!['+'] + dec(n)) == Some(n),
        number(Seq::empty()) is None,
        0 < i < s.len() && !('0' <= s[i] && s[i] <= '9') ==> number(s) is None,
        s.len() > 0 && s[0] != '+' && !('0' <= s[0] && s[0] <= '9') ==> number(s) is None,
{
    lemma_dec_digits(n);
    let d = dec(n);
    assert(is_digit(d[0]));
    let p = seq!['+'] + d;
    assert(p[0] == '+');
    assert(p.subrange(1, p.len() as int) =~= d);
    if 0 < i < s.len() && !is_digit(s[i]) {
        if s[0] == '+' {
            let rest = s.subrange(1, s.len() as int);
            assert(rest[i - 1] == s[i]);
        }
    }
}

/// White space around a text is left out, and nothing else.
pub proof fn law_blanks_around_are_left_out(a: Seq<char>, s: Seq<char>, b: Seq<char>)
    requires
        forall|i: int| 0 <= i < a.len() ==> is_space(#[trigger] a[i]),
        forall|i: int| 0 <= i < b.len() ==> is_space(#[trigger] b[i]),
        s.len() > 0 ==> !is_space(s[0]) && !is_space(s.last()),
    ensures
        trim(a + s + b) == s,
        is_space(' ') && is_space('\t') && is_space('\n') && is_space('\r'),
        !is_space('a') && !is_space('@') && !is_space('0'),
    decreases a.len() + b.len(),
{
    let all = a + s + b;
    if a.len() > 0 {
        let rest = a.drop_first();
        assert(all[0] == a[0]);
        assert(all.subrange(1, all.len() as int) =~= rest + s + b);
        assert forall|i: int| 0 <= i < rest.len() implies is_space(#[trigger] rest[i]) by {
            assert(rest[i] == a[i + 1]);
        }
        law_blanks_around_are_left_out(rest, s, b);
        assert(trim_start(all) == trim_start(rest + s + b));
    } else if s.len() > 0 {
        assert(all[0] == s[0]);
        assert(trim_start(all) == all);
        lemma_trailing_blanks(s, b);
        assert(all =~= s + b);
    } else {
        assert(all =~= b);
        lemma_only_blanks(b);
        assert(s =~= Seq::<char>::empty());
    }
}

proof fn lemma_trailing_blanks(s: Seq<char>, b: Seq<char>)
    requires
        s.len() > 0,
        !is_space(s.last()),
        forall|i: int| 0 <= i < b.len() ==> is_space(#[trigger] b[i]),
    ensures
        trim_end(s + b) == s,
    decreases b.len(),
{
    let all = s + b;
    if b.len() > 0 {
        assert(all[all.len() - 1] == b[b.len() - 1]);
        assert(all.subrange(0, all.len() - 1) =~= s + b.drop_last());
        lemma_trailing_blanks(s, b.drop_last());
    } else {
        assert(all =~= s);
    }
}

proof fn lemma_only_blanks(b: Seq<char>)
    requires
        forall|i: int| 0 <= i < b.len() ==> is_space(#[trigger] b[i]),
    ensures
        trim(b).len() == 0,
    decreases b.len(),
{
    if b.len() > 0 {
        let rest = b.subrange(1, b.len() as int);
        assert forall|i: int| 0 <= i < rest.len() implies is_space(#[trigger] rest[i]) by {
            assert(rest[i] == b[i + 1]);
        }
        lemma_only_blanks(rest);
    }
}

/// Letters of ASCII are lowered, each to its own, and nothing else changes.
pub proof fn law_letters_are_lowered(s: Seq<char>, i: int)
    requires
        0 <= i < s.len(),
    ensures
        lowered(s).len() == s.len(),
        'A' <= s[i] && s[i] <= 'Z' ==> lowered(s)[i] as u32 == s[i] as u32 + 32,
        !('A' <= s[i] && s[i] <= 'Z') ==> lowered(s)[i] == s[i],
{
}

/// The pieces of a text hold no separator, and with the separators between them they are
/// the text.
pub proof fn law_pieces_make_the_text(s: Seq<char>, sep: char, from: int)
    requires
        0 <= from <= s.len(),
    ensures
        pieces(s, sep, from).len() > 0,
        forall|k: int| 0 <= k < pieces(s, sep, from).len() ==> !(#[trigger] pieces(s, sep, from)[k]).contains(sep),
        join(pieces(s, sep, from), seq![sep]) == s.subrange(from, s.len() as int),
    decreases s.len() - from,
{
    lemma_next_char(s, sep, from);
    let end = next_char(s, sep, from);
    let all = pieces(s, sep, from);
    let rest = s.subrange(from, s.len() as int);
    if end >= s.len() {
        assert(all[0] == rest);
        assert forall|k: int| 0 <= k < rest.len() implies rest[k] != sep by {
            assert(rest[k] == s[from + k]);
        }
    } else {
        law_pieces_make_the_text(s, sep, end + 1);
        let tail = pieces(s, sep, end + 1);
        let first = s.subrange(from, end);
        assert(all == seq![first] + tail);
        assert forall|k: int| 0 <= k < all.len() implies !(#[trigger] all[k]).contains(sep) by {
            if k > 0 {
                assert(all[k] == tail[k - 1]);
            } else {
                assert forall|j: int| 0 <= j < first.len() implies first[j] != sep by {
                    assert(first[j] == s[from + j]);
                }
            }
        }
        lemma_join_first(first, tail, seq![sep]);
        assert(first + seq![sep] + s.subrange(end + 1, s.len() as int) =~= rest);
    }
}

proof fn lemma_join_first(first: Seq<char>, tail: Seq<Seq<char>>, sep: Seq<char>)
    requires
        tail.len() > 0,
    ensures
        join(seq![first] + tail, sep) == first + sep + join(tail, sep),
    decreases tail.len(),
{
    let all = seq![first] + tail;
    assert(all.last() == tail.last());
    assert(all.drop_last() =~= seq![first] + tail.drop_last());
    if tail.len() == 1 {
        assert(all.drop_last() =~= seq![first]);
        assert(join(all.drop_last(), sep) == first);
    } else {
        lemma_join_first(first, tail.drop_last(), sep);
        assert(first + sep + join(tail.drop_last(), sep) + sep + tail.last() =~= first + sep + (join(
            tail.drop_last(),
            sep,
        ) + sep + tail.last()));
    }
}

/// What stands behind a separator, and holds none itself, is the last piece.
pub proof fn lemma_last_piece(p: Seq<char>, q: Seq<char>, sep: char, from: int)
    requires
        !q.contains(sep),
        0 <= from <= p.len(),
    ensures
        pieces(p + seq![sep] + q, sep, from) == pieces(p, sep, from).push(q),
    decreases p.len() - from,
{
    let s = p + seq![sep] + q;
    lemma_next_char(p, sep, from);
    lemma_next_char(s, sep, from);
    let a = next_char(p, sep, from);
    let b = next_char(s, sep, from);
    assert(s[p.len() as int] == sep);
    assert forall|i: int| from <= i < p.len() implies s[i] == p[i] by {}
    if a < p.len() {
        assert(s[a] == sep);
        if b < a {
            assert(p[b] == s[b]);
        }
        assert(a == b);
        lemma_last_piece(p, q, sep, a + 1);
        assert(s.subrange(from, b) =~= p.subrange(from, a));
        assert(pieces(s, sep, from) =~= pieces(p, sep, from).push(q));
    } else {
        if b < p.len() {
            assert(p[b] == s[b]);
        }
        assert(b == p.len());
        let rest = b + 1;
        lemma_next_char(s, sep, rest);
        let e = next_char(s, sep, rest);
        if e < s.len() {
            assert(s[e] == q[e - rest]);
        }
        assert(s.subrange(from, b) =~= p.subrange(from, p.len() as int));
        assert(s.subrange(rest, s.len() as int) =~= q);
        assert(pieces(s, sep, rest) =~= seq![q]);
        assert(pieces(s, sep, from) =~= seq![p.subrange(from, p.len() as int), q]);
        assert(pieces(p, sep, from).push(q) =~= seq![p.subrange(from, p.len() as int), q]);
    }
}

/// A text without a separator is its own piece.
pub proof fn lemma_sole_piece(q: Seq<char>, sep: char)
    requires
        !q.contains(sep),
    ensures
        split(q, sep) == seq![q],
{
    lemma_next_char(q, sep, 0);
    let e = next_char(q, sep, 0);
    if e < q.len() {
        assert(q[e] == sep);
    }
    assert(q.subrange(0, q.len() as int) =~= q);
}

} // verus!
