use vstd::prelude::*;
use vstd::std_specs::iter::IteratorSpec;

verus! {

/// The whitespace that separates tokens: space, tab, line feed, carriage return, form feed.
pub open spec fn is_ascii_ws(c: char) -> bool {
    c == ' ' || c == '\t' || c == '\n' || c == '\r' || c == '\u{c}'
}

/// The characters with the Unicode `White_Space` property, those that `char::is_whitespace`
/// accepts and that `str::trim` strips.
pub open spec fn is_unicode_ws(c: char) -> bool {
    ('\u{9}' <= c && c <= '\u{d}') || c == ' ' || c == '\u{85}' || c == '\u{a0}' || c == '\u{1680}'
        || ('\u{2000}' <= c && c <= '\u{200a}') || c == '\u{2028}' || c == '\u{2029}'
        || c == '\u{202f}' || c == '\u{205f}' || c == '\u{3000}'
}

/// A line that holds nothing but whitespace, in the Unicode sense.
pub open spec fn is_blank(s: Seq<char>) -> bool {
    forall|i: int| 0 <= i < s.len() ==> is_unicode_ws(#[trigger] s[i])
}

/// The line opens with the record marker `--`.
pub open spec fn starts_with_marker(s: Seq<char>) -> bool {
    s.len() >= 2 && s[0] == '-' && s[1] == '-'
}

/// A marker `--` starts at position `i`.
pub open spec fn marker_at(s: Seq<char>, i: int) -> bool {
    0 <= i && i + 1 < s.len() && s[i] == '-' && s[i + 1] == '-'
}

/// The first position at or after `i` where a marker starts, or the length if there is none.
pub open spec fn next_marker(s: Seq<char>, i: int) -> int
    decreases s.len() - i,
{
    if i < 0 || i + 1 >= s.len() {
        s.len() as int
    } else if marker_at(s, i) {
        i
    } else {
        next_marker(s, i + 1)
    }
}

/// The first position at or after `i` that is not whitespace, or the length.
pub open spec fn skip_ws(s: Seq<char>, i: int) -> int
    decreases s.len() - i,
{
    if i < 0 || i >= s.len() {
        s.len() as int
    } else if is_ascii_ws(s[i]) {
        skip_ws(s, i + 1)
    } else {
        i
    }
}

/// The first position at or after `i` that is whitespace, or the length.
pub open spec fn skip_token(s: Seq<char>, i: int) -> int
    decreases s.len() - i,
{
    if i < 0 || i >= s.len() {
        s.len() as int
    } else if is_ascii_ws(s[i]) {
        i
    } else {
        skip_token(s, i + 1)
    }
}

pub open spec fn is_digit(c: char) -> bool {
    '0' <= c && c <= '9'
}

pub open spec fn digit_value(c: char) -> nat {
    ((c as u32) - ('0' as u32)) as nat
}

/// The number that a string of decimal digits denotes.
pub open spec fn decimal_value(s: Seq<char>) -> nat
    decreases s.len(),
{
    if s.len() == 0 {
        0
    } else {
        decimal_value(s.drop_last()) * 10 + digit_value(s.last())
    }
}

pub open spec fn all_digits(s: Seq<char>) -> bool {
    forall|i: int| 0 <= i < s.len() ==> is_digit(#[trigger] s[i])
}

/// The value of a run of decimal digits that fits in `u64`, and zero for anything else.
pub open spec fn digits_count(tok: Seq<char>) -> u64 {
    if tok.len() > 0 && all_digits(tok) && decimal_value(tok) <= u64::MAX {
        decimal_value(tok) as u64
    } else {
        0
    }
}

/// A line count read from a token: the value of an unsigned decimal number, with an optional
/// leading `+`, that fits in `u64`; zero for anything else (the `-` that binary files carry).
pub open spec fn count_of(tok: Seq<char>) -> u64 {
    if tok.len() > 0 && tok[0] == '+' {
        digits_count(tok.drop_first())
    } else {
        digits_count(tok)
    }
}

pub open spec fn digit_char(d: nat) -> char {
    if d == 0 {
        '0'
    } else if d == 1 {
        '1'
    } else if d == 2 {
        '2'
    } else if d == 3 {
        '3'
    } else if d == 4 {
        '4'
    } else if d == 5 {
        '5'
    } else if d == 6 {
        '6'
    } else if d == 7 {
        '7'
    } else if d == 8 {
        '8'
    } else {
        '9'
    }
}

/// The decimal text of `n`, without leading zeros.
pub open spec fn digits_of(n: nat) -> Seq<char>
    decreases n,
{
    if n < 10 {
        seq![digit_char(n)]
    } else {
        digits_of(n / 10).push(digit_char(n % 10))
    }
}

/// No marker starts between `i` and the one that scanning finds, and the scan stops at a
/// marker or at the end.
pub proof fn lemma_next_marker_scan(s: Seq<char>, i: int)
    requires
        0 <= i <= s.len(),
    ensures
        i <= next_marker(s, i) <= s.len(),
        next_marker(s, i) == s.len() || marker_at(s, next_marker(s, i)),
        forall|k: int| i <= k < next_marker(s, i) ==> !marker_at(s, k),
    decreases s.len() - i,
{
    if i + 1 < s.len() && !marker_at(s, i) {
        lemma_next_marker_scan(s, i + 1);
    }
}

/// Skipping whitespace stops at a character that is no whitespace, or at the end.
pub proof fn lemma_skip_ws_stops(s: Seq<char>, i: int)
    requires
        0 <= i,
    ensures
        0 <= skip_ws(s, i) <= s.len() || skip_ws(s, i) == i,
        skip_ws(s, i) < s.len() ==> 0 <= skip_ws(s, i) && !is_ascii_ws(s[skip_ws(s, i)]),
    decreases s.len() - i,
{
    if i < s.len() && is_ascii_ws(s[i]) {
        lemma_skip_ws_stops(s, i + 1);
    }
}

/// Skipping a token never goes back.
pub proof fn lemma_skip_token_nonneg(s: Seq<char>, i: int)
    requires
        0 <= i,
    ensures
        0 <= skip_token(s, i),
    decreases s.len() - i,
{
    if i < s.len() && !is_ascii_ws(s[i]) {
        lemma_skip_token_nonneg(s, i + 1);
    }
}

/// The token is an unsigned decimal number with an optional leading `+`.
pub open spec fn numeric_token(tok: Seq<char>) -> bool {
    (tok.len() > 0 && all_digits(tok)) || (tok.len() > 1 && tok[0] == '+' && all_digits(
        tok.drop_first(),
    ))
}

/// A token that is no number, such as the `-` of a binary file, counts zero lines.
pub proof fn lemma_non_numeric_counts_zero(tok: Seq<char>)
    requires
        !numeric_token(tok),
    ensures
        count_of(tok) == 0,
{
}

/// Scanning from `i` finds the marker at `j` when none starts in between.
pub proof fn lemma_next_marker_at(s: Seq<char>, i: int, j: int)
    requires
        0 <= i <= j,
        marker_at(s, j),
        forall|k: int| i <= k < j ==> !marker_at(s, k),
    ensures
        next_marker(s, i) == j,
    decreases j - i,
{
    if i < j {
        lemma_next_marker_at(s, i + 1, j);
    }
}

/// Scanning from `i` reaches the end when no marker starts from there on.
pub proof fn lemma_next_marker_none(s: Seq<char>, i: int)
    requires
        0 <= i,
        forall|k: int| i <= k < s.len() ==> !marker_at(s, k),
    ensures
        next_marker(s, i) == s.len(),
    decreases s.len() - i,
{
    if i + 1 < s.len() {
        lemma_next_marker_none(s, i + 1);
    }
}

/// Skipping whitespace from `i` stops at `j` when all in between is whitespace.
pub proof fn lemma_skip_ws_to(s: Seq<char>, i: int, j: int)
    requires
        0 <= i <= j < s.len(),
        !is_ascii_ws(s[j]),
        forall|k: int| i <= k < j ==> is_ascii_ws(#[trigger] s[k]),
    ensures
        skip_ws(s, i) == j,
    decreases j - i,
{
    if i < j {
        lemma_skip_ws_to(s, i + 1, j);
    }
}

/// Skipping a token from `i` stops at `j` when nothing in between is whitespace.
pub proof fn lemma_skip_token_to(s: Seq<char>, i: int, j: int)
    requires
        0 <= i <= j <= s.len(),
        j < s.len() ==> is_ascii_ws(s[j]),
        forall|k: int| i <= k < j ==> !is_ascii_ws(#[trigger] s[k]),
    ensures
        skip_token(s, i) == j,
    decreases j - i,
{
    if i < j {
        lemma_skip_token_to(s, i + 1, j);
    }
}

/// A longer prefix of a token never reads as a smaller number.
pub proof fn lemma_decimal_prefix_le(s: Seq<char>, j: int, k: int)
    requires
        0 <= j <= k <= s.len(),
    ensures
        decimal_value(s.subrange(0, j)) <= decimal_value(s.subrange(0, k)),
    decreases k - j,
{
    if j < k {
        lemma_decimal_prefix_le(s, j, k - 1);
        assert(s.subrange(0, k).drop_last() =~= s.subrange(0, k - 1));
    }
}

/// The decimal text of `n` reads back as `n`.
pub proof fn lemma_digits_of(n: nat)
    ensures
        digits_of(n).len() > 0,
        all_digits(digits_of(n)),
        decimal_value(digits_of(n)) == n,
    decreases n,
{
    lemma_digit_char(n % 10);
    if n < 10 {
        assert(digits_of(n).drop_last() =~= Seq::<char>::empty());
        assert(decimal_value(Seq::<char>::empty()) == 0);
        assert(decimal_value(digits_of(n)) == decimal_value(digits_of(n).drop_last()) * 10
            + digit_value(digits_of(n).last()));
    } else {
        lemma_digits_of(n / 10);
        let d = digits_of(n);
        assert(n == (n / 10) * 10 + n % 10);
        assert(d.last() == digit_char(n % 10));
        assert(decimal_value(d) == decimal_value(d.drop_last()) * 10 + digit_value(d.last()));
        assert(d.drop_last() =~= digits_of(n / 10));
        assert forall|i: int| 0 <= i < d.len() implies is_digit(#[trigger] d[i]) by {
            if i < d.len() - 1 {
                assert(d[i] == digits_of(n / 10)[i]);
            }
        }
    }
}

proof fn lemma_digit_char(d: nat)
    requires
        d < 10,
    ensures
        is_digit(digit_char(d)),
        digit_value(digit_char(d)) == d,
        !is_ascii_ws(digit_char(d)),
        digit_char(d) != '-',
{
}

pub proof fn lemma_count_of_digits(n: u64)
    ensures
        count_of(digits_of(n as nat)) == n,
{
    lemma_digits_of(n as nat);
    assert(is_digit(digits_of(n as nat)[0]));
}

fn is_unicode_ws_char(c: char) -> (r: bool)
    ensures
        r == is_unicode_ws(c),
{
    ('\u{9}' <= c && c <= '\u{d}') || c == ' ' || c == '\u{85}' || c == '\u{a0}' || c == '\u{1680}'
        || ('\u{2000}' <= c && c <= '\u{200a}') || c == '\u{2028}' || c == '\u{2029}'
        || c == '\u{202f}' || c == '\u{205f}' || c == '\u{3000}'
}

fn is_ws_char(c: char) -> (r: bool)
    ensures
        r == is_ascii_ws(c),
{
    c == ' ' || c == '\t' || c == '\n' || c == '\r' || c == '\u{c}'
}

/// The characters of `s`, one by one.
pub fn chars_of(s: &str) -> (r: Vec<char>)
    ensures
        r@ == s@,
{
    broadcast use vstd::string::group_string_axioms, vstd::string::next_postcondition;

    let mut it = s.chars();
    let mut out: Vec<char> = Vec::new();
    loop
        invariant_except_break
            out@ + it.remaining() == s@,
        ensures
            out@ == s@,
        decreases s@.len() - out@.len(),
    {
        match it.next() {
            Some(c) => {
                out.push(c);
            },
            None => {
                assert(out@ =~= s@);
                break ;
            },
        }
    }
    out
}

/// Whether the characters hold whitespace only.
pub fn blank(cs: &Vec<char>) -> (r: bool)
    ensures
        r == is_blank(cs@),
{
    let mut i: usize = 0;
    while i < cs.len()
        invariant
            i <= cs.len(),
            forall|k: int| 0 <= k < i ==> is_unicode_ws(#[trigger] cs@[k]),
        decreases cs.len() - i,
    {
        if !is_unicode_ws_char(cs[i]) {
            return false;
        }
        i += 1;
    }
    true
}

/// The first marker at or after `start`.
pub fn find_marker(cs: &Vec<char>, start: usize) -> (r: usize)
    requires
        start <= cs.len(),
    ensures
        r == next_marker(cs@, start as int),
        r == cs.len() || (start <= r && r + 2 <= cs.len()),
{
    let mut i: usize = start;
    while i < cs.len() && i + 1 < cs.len()
        invariant
            start <= i <= cs.len(),
            next_marker(cs@, i as int) == next_marker(cs@, start as int),
        decreases cs.len() - i,
    {
        if cs[i] == '-' && cs[i + 1] == '-' {
            return i;
        }
        i += 1;
    }
    cs.len()
}

/// The first position at or after `start` that is not whitespace.
pub fn find_non_ws(cs: &Vec<char>, start: usize) -> (r: usize)
    requires
        start <= cs.len(),
    ensures
        r == skip_ws(cs@, start as int),
        start <= r <= cs.len(),
{
    let mut i: usize = start;
    while i < cs.len() && is_ws_char(cs[i])
        invariant
            start <= i <= cs.len(),
            skip_ws(cs@, i as int) == skip_ws(cs@, start as int),
        decreases cs.len() - i,
    {
        i += 1;
    }
    i
}

/// The first position at or after `start` that is whitespace.
pub fn find_ws(cs: &Vec<char>, start: usize) -> (r: usize)
    requires
        start <= cs.len(),
    ensures
        r == skip_token(cs@, start as int),
        start <= r <= cs.len(),
{
    let mut i: usize = start;
    while i < cs.len() && !is_ws_char(cs[i])
        invariant
            start <= i <= cs.len(),
            skip_token(cs@, i as int) == skip_token(cs@, start as int),
        decreases cs.len() - i,
    {
        i += 1;
    }
    i
}

/// Reads the line count held by `cs[from..to]`, zero where it is no number that fits in `u64`.
pub fn parse_count(cs: &Vec<char>, from: usize, to: usize) -> (r: u64)
    requires
        from <= to <= cs.len(),
    ensures
        r == count_of(cs@.subrange(from as int, to as int)),
{
    if from < to && cs[from] == '+' {
        assert(cs@.subrange(from as int, to as int).drop_first() =~= cs@.subrange(from + 1, to as int));
        parse_digits(cs, from + 1, to)
    } else {
        parse_digits(cs, from, to)
    }
}

fn parse_digits(cs: &Vec<char>, from: usize, to: usize) -> (r: u64)
    requires
        from <= to <= cs.len(),
    ensures
        r == digits_count(cs@.subrange(from as int, to as int)),
{
    let ghost tok = cs@.subrange(from as int, to as int);
    if from == to {
        return 0;
    }
    let mut acc: u64 = 0;
    let mut i: usize = from;
    while i < to
        invariant
            from <= i <= to <= cs.len(),
            tok == cs@.subrange(from as int, to as int),
            all_digits(tok.subrange(0, i - from)),
            acc as nat == decimal_value(tok.subrange(0, i - from)),
        decreases to - i,
    {
        let c = cs[i];
        if !('0' <= c && c <= '9') {
            assert(!is_digit(tok[i - from]));
            return 0;
        }
        let d = (c as u32 - '0' as u32) as u64;
        assert(tok.subrange(0, i + 1 - from).drop_last() =~= tok.subrange(0, i - from));
        if acc > (u64::MAX - d) / 10 {
            proof {
                assert(decimal_value(tok.subrange(0, i + 1 - from)) > u64::MAX) by (nonlinear_arith)
                    requires
                        decimal_value(tok.subrange(0, i + 1 - from)) == acc * 10 + d,
                        acc > (u64::MAX - d) / 10,
                        d <= 9,
                ;
                lemma_decimal_prefix_le(tok, i + 1 - from, tok.len() as int);
                assert(tok.subrange(0, tok.len() as int) =~= tok);
            }
            return 0;
        }
        acc = acc * 10 + d;
        i += 1;
        assert forall|k: int| 0 <= k < i - from implies is_digit(
            #[trigger] tok.subrange(0, i - from)[k],
        ) by {
            if k < i - 1 - from {
                assert(tok.subrange(0, i - 1 - from)[k] == tok.subrange(0, i - from)[k]);
            }
        }
    }
    assert(tok.subrange(0, tok.len() as int) =~= tok);
    acc
}

fn digit_str(d: u64) -> (r: &'static str)
    requires
        d < 10,
    ensures
        r@ == seq![digit_char(d as nat)],
{
    if d == 0 {
        proof { reveal_strlit("0"); }
        "0"
    } else if d == 1 {
        proof { reveal_strlit("1"); }
        "1"
    } else if d == 2 {
        proof { reveal_strlit("2"); }
        "2"
    } else if d == 3 {
        proof { reveal_strlit("3"); }
        "3"
    } else if d == 4 {
        proof { reveal_strlit("4"); }
        "4"
    } else if d == 5 {
        proof { reveal_strlit("5"); }
        "5"
    } else if d == 6 {
        proof { reveal_strlit("6"); }
        "6"
    } else if d == 7 {
        proof { reveal_strlit("7"); }
        "7"
    } else if d == 8 {
        proof { reveal_strlit("8"); }
        "8"
    } else {
        proof { reveal_strlit("9"); }
        "9"
    }
}

/// The decimal text of `n`.
pub fn decimal_text(n: u64) -> (r: String)
    ensures
        r@ == digits_of(n as nat),
    decreases n,
{
    if n < 10 {
        String::from_str(digit_str(n))
    } else {
        let mut s = decimal_text(n / 10);
        s.append(digit_str(n % 10));
        assert(s@ =~= digits_of(n as nat));
        s
    }
}

} // verus!
