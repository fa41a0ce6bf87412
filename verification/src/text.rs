//! Character classes, decimal numbers and small text operations.
//!
//! Everything in this crate reads text as a sequence of `char`s. The
//! grammar only ever looks at ASCII characters, but whitespace is the
//! Unicode `White_Space` set, which is what `str::trim` and
//! `str::split_whitespace` use.
use crate::constants::MAX_SAFE_INTEGER as MAX_SAFE;
use vstd::prelude::*;
use vstd::utf8::encode_utf8;

verus! {

pub open spec fn code(c: char) -> u32 {
    c as u32
}

pub open spec fn is_digit(c: char) -> bool {
    48 <= code(c) <= 57
}

pub open spec fn is_alpha(c: char) -> bool {
    (65 <= code(c) <= 90) || (97 <= code(c) <= 122)
}

pub open spec fn is_alnum(c: char) -> bool {
    is_digit(c) || is_alpha(c)
}

/// A character that may appear in a prerelease or build identifier.
pub open spec fn is_ident_char(c: char) -> bool {
    is_alnum(c) || c == '-'
}

/// The Unicode `White_Space` property, as `char::is_whitespace` has it.
pub open spec fn is_ws(c: char) -> bool {
    let u = code(c);
    (9 <= u <= 13) || u == 32 || u == 0x85 || u == 0xA0 || u == 0x1680 || (0x2000 <= u
        <= 0x200A) || u == 0x2028 || u == 0x2029 || u == 0x202F || u == 0x205F || u == 0x3000
}

/// ASCII whitespace, as `u8::is_ascii_whitespace` has it (no vertical tab).
pub open spec fn is_ascii_ws(c: char) -> bool {
    let u = code(c);
    u == 32 || u == 9 || u == 10 || u == 12 || u == 13
}

pub fn digit_char(c: char) -> (b: bool)
    ensures
        b == is_digit(c),
{
    let u = c as u32;
    48 <= u && u <= 57
}

pub fn alpha_char(c: char) -> (b: bool)
    ensures
        b == is_alpha(c),
{
    let u = c as u32;
    (65 <= u && u <= 90) || (97 <= u && u <= 122)
}

pub fn alnum_char(c: char) -> (b: bool)
    ensures
        b == is_alnum(c),
{
    digit_char(c) || alpha_char(c)
}

pub fn ident_char(c: char) -> (b: bool)
    ensures
        b == is_ident_char(c),
{
    alnum_char(c) || c == '-'
}

pub fn ws_char(c: char) -> (b: bool)
    ensures
        b == is_ws(c),
{
    let u = c as u32;
    (9 <= u && u <= 13) || u == 32 || u == 0x85 || u == 0xA0 || u == 0x1680 || (0x2000 <= u && u
        <= 0x200A) || u == 0x2028 || u == 0x2029 || u == 0x202F || u == 0x205F || u == 0x3000
}

pub fn ascii_ws_char(c: char) -> (b: bool)
    ensures
        b == is_ascii_ws(c),
{
    let u = c as u32;
    u == 32 || u == 9 || u == 10 || u == 12 || u == 13
}

// ── decimal numbers ─────────────────────────────────────────────────────
pub open spec fn all_digits(s: Seq<char>) -> bool {
    forall|i: int| 0 <= i < s.len() ==> #[trigger] is_digit(s[i])
}

pub open spec fn digit_value(c: char) -> nat {
    (code(c) - 48) as nat
}

/// The value of a run of decimal digits.
pub open spec fn dec_value(s: Seq<char>) -> nat
    decreases s.len(),
{
    if s.len() == 0 {
        0
    } else {
        dec_value(s.drop_last()) * 10 + digit_value(s.last())
    }
}

pub open spec fn digit_of(d: nat) -> char {
    if d == 0 {
        '0'
    } else if d == 1 {
        '1'
    } else if d == 2 {
        '2'
    } else if d == 3 {
        '3'
    } else if d == 4 {
        '4'
    } else if d == 5 {
        '5'
    } else if d == 6 {
        '6'
    } else if d == 7 {
        '7'
    } else if d == 8 {
        '8'
    } else {
        '9'
    }
}

/// The decimal rendering of a number, without leading zeros.
pub open spec fn num_text(n: nat) -> Seq<char>
    decreases n,
{
    if n < 10 {
        seq![digit_of(n)]
    } else {
        num_text(n / 10).push(digit_of(n % 10))
    }
}

/// A digit run longer than one character that starts with `0`.
pub open spec fn has_leading_zero(s: Seq<char>) -> bool {
    s.len() > 1 && s[0] == '0'
}

pub proof fn lemma_dec_value_grows(s: Seq<char>, k: int)
    requires
        0 <= k <= s.len(),
        all_digits(s),
    ensures
        dec_value(s.take(k)) <= dec_value(s),
    decreases s.len(),
{
    if k < s.len() {
        assert(s.drop_last().take(k) =~= s.take(k));
        lemma_dec_value_grows(s.drop_last(), k);
    } else {
        assert(s.take(k) =~= s);
    }
}

pub proof fn lemma_dec_value_step(s: Seq<char>, k: int)
    requires
        0 <= k < s.len(),
    ensures
        dec_value(s.take(k + 1)) == dec_value(s.take(k)) * 10 + digit_value(s[k]),
{
    assert(s.take(k + 1).drop_last() =~= s.take(k));
}

/// Read the decimal value of `s[start..end]`, all digits, or `None` when it
/// is larger than `MAX_SAFE`.
pub fn read_number(s: &Vec<char>, start: usize, end: usize) -> (r: Option<u64>)
    requires
        start <= end <= s@.len(),
        all_digits(s@.subrange(start as int, end as int)),
    ensures
        r == (if dec_value(s@.subrange(start as int, end as int)) <= MAX_SAFE {
            Some(dec_value(s@.subrange(start as int, end as int)) as u64)
        } else {
            None::<u64>
        }),
{
    let ghost t = s@.subrange(start as int, end as int);
    let mut n: u64 = 0;
    let mut i = start;
    while i < end
        invariant
            start <= i <= end <= s@.len(),
            t == s@.subrange(start as int, end as int),
            all_digits(t),
            n == dec_value(t.take(i - start)),
            n <= MAX_SAFE,
        decreases end - i,
    {
        proof {
            lemma_dec_value_step(t, i - start);
            assert(t[i - start] == s@[i as int]);
            assert(is_digit(t[i - start]));
        }
        let d = (s[i] as u32 - 48) as u64;
        if n > (MAX_SAFE - d) / 10 {
            proof {
                lemma_dec_value_grows(t, i - start + 1);
            }
            return None;
        }
        n = n * 10 + d;
        i = i + 1;
    }
    proof {
        assert(t.take(end - start) =~= t);
    }
    Some(n)
}

/// Whether the decimal value of `s[start..end]`, all digits, fits in a
/// `u64`.
pub fn fits_u64(s: &Vec<char>, start: usize, end: usize) -> (r: bool)
    requires
        start <= end <= s@.len(),
        all_digits(s@.subrange(start as int, end as int)),
    ensures
        r == (dec_value(s@.subrange(start as int, end as int)) <= u64::MAX),
{
    let ghost t = s@.subrange(start as int, end as int);
    let mut n: u64 = 0;
    let mut i = start;
    while i < end
        invariant
            start <= i <= end <= s@.len(),
            t == s@.subrange(start as int, end as int),
            all_digits(t),
            n == dec_value(t.take(i - start)),
        decreases end - i,
    {
        proof {
            lemma_dec_value_step(t, i - start);
            assert(t[i - start] == s@[i as int]);
            assert(is_digit(t[i - start]));
        }
        let d = (s[i] as u32 - 48) as u64;
        if n > (u64::MAX - d) / 10 {
            proof {
                lemma_dec_value_grows(t, i - start + 1);
            }
            return false;
        }
        n = n * 10 + d;
        i = i + 1;
    }
    proof {
        assert(t.take(end - start) =~= t);
    }
    true
}

/// Append the decimal rendering of `n`.
pub fn push_number(out: &mut Vec<char>, n: u64)
    ensures
        final(out)@ == old(out)@ + num_text(n as nat),
    decreases n,
{
    if n < 10 {
        out.push(small_digit(n));
    } else {
        push_number(out, n / 10);
        out.push(small_digit(n % 10));
    }
}

fn small_digit(d: u64) -> (c: char)
    requires
        d < 10,
    ensures
        c == digit_of(d as nat),
{
    if d == 0 {
        '0'
    } else if d == 1 {
        '1'
    } else if d == 2 {
        '2'
    } else if d == 3 {
        '3'
    } else if d == 4 {
        '4'
    } else if d == 5 {
        '5'
    } else if d == 6 {
        '6'
    } else if d == 7 {
        '7'
    } else if d == 8 {
        '8'
    } else {
        '9'
    }
}

// ── runs and slices ─────────────────────────────────────────────────────
/// End of the run of digits that starts at `i`.
pub open spec fn digit_run_end(s: Seq<char>, i: int) -> int
    decreases s.len() - i,
{
    if i < 0 || i >= s.len() || !is_digit(s[i]) {
        i
    } else {
        digit_run_end(s, i + 1)
    }
}

/// End of the run of identifier characters that starts at `i`.
pub open spec fn ident_run_end(s: Seq<char>, i: int) -> int
    decreases s.len() - i,
{
    if i < 0 || i >= s.len() || !is_ident_char(s[i]) {
        i
    } else {
        ident_run_end(s, i + 1)
    }
}

pub proof fn lemma_digit_run(s: Seq<char>, i: int)
    requires
        0 <= i <= s.len(),
    ensures
        i <= digit_run_end(s, i) <= s.len(),
        all_digits(s.subrange(i, digit_run_end(s, i))),
        digit_run_end(s, i) < s.len() ==> !is_digit(s[digit_run_end(s, i)]),
    decreases s.len() - i,
{
    if i < s.len() && is_digit(s[i]) {
        lemma_digit_run(s, i + 1);
        let e = digit_run_end(s, i);
        assert forall|k: int| 0 <= k < e - i implies #[trigger] is_digit(s.subrange(i, e)[k]) by {
            if k > 0 {
                assert(s.subrange(i, e)[k] == s.subrange(i + 1, e)[k - 1]);
            }
        }
    }
}

pub proof fn lemma_ident_run(s: Seq<char>, i: int)
    requires
        0 <= i <= s.len(),
    ensures
        i <= ident_run_end(s, i) <= s.len(),
        forall|k: int| i <= k < ident_run_end(s, i) ==> #[trigger] is_ident_char(s[k]),
        ident_run_end(s, i) < s.len() ==> !is_ident_char(s[ident_run_end(s, i)]),
    decreases s.len() - i,
{
    if i < s.len() && is_ident_char(s[i]) {
        lemma_ident_run(s, i + 1);
    }
}

pub fn scan_digits(s: &Vec<char>, i: usize) -> (e: usize)
    requires
        i <= s@.len(),
    ensures
        e == digit_run_end(s@, i as int),
        i <= e <= s@.len(),
        all_digits(s@.subrange(i as int, e as int)),
{
    proof {
        lemma_digit_run(s@, i as int);
    }
    let mut j = i;
    while j < s.len() && digit_char(s[j])
        invariant
            i <= j <= s@.len(),
            digit_run_end(s@, j as int) == digit_run_end(s@, i as int),
        decreases s@.len() - j,
    {
        j = j + 1;
    }
    j
}

pub fn scan_ident(s: &Vec<char>, i: usize) -> (e: usize)
    requires
        i <= s@.len(),
    ensures
        e == ident_run_end(s@, i as int),
        i <= e <= s@.len(),
{
    proof {
        lemma_ident_run(s@, i as int);
    }
    let mut j = i;
    while j < s.len() && ident_char(s[j])
        invariant
            i <= j <= s@.len(),
            ident_run_end(s@, j as int) == ident_run_end(s@, i as int),
        decreases s@.len() - j,
    {
        j = j + 1;
    }
    j
}

/// A copy of `s[start..end]`.
pub fn slice(s: &Vec<char>, start: usize, end: usize) -> (r: Vec<char>)
    requires
        start <= end <= s@.len(),
    ensures
        r@ == s@.subrange(start as int, end as int),
{
    let mut r: Vec<char> = Vec::new();
    let mut i = start;
    while i < end
        invariant
            start <= i <= end <= s@.len(),
            r@ == s@.subrange(start as int, i as int),
        decreases end - i,
    {
        r.push(s[i]);
        i = i + 1;
    }
    r
}

/// Append `t` to `out`.
pub fn push_all(out: &mut Vec<char>, t: &Vec<char>)
    ensures
        final(out)@ == old(out)@ + t@,
{
    let mut i: usize = 0;
    while i < t.len()
        invariant
            i <= t@.len(),
            out@ == old(out)@ + t@.take(i as int),
        decreases t@.len() - i,
    {
        out.push(t[i]);
        i = i + 1;
    }
    assert(t@.take(t@.len() as int) =~= t@);
}

/// Whether two character sequences are equal.
pub fn same_text(a: &Vec<char>, b: &Vec<char>) -> (r: bool)
    ensures
        r == (a@ == b@),
{
    if a.len() != b.len() {
        return false;
    }
    let mut i: usize = 0;
    while i < a.len()
        invariant
            a@.len() == b@.len(),
            i <= a@.len(),
            forall|k: int| 0 <= k < i ==> a@[k] == b@[k],
        decreases a@.len() - i,
    {
        if a[i] != b[i] {
            return false;
        }
        i = i + 1;
    }
    assert(a@ =~= b@);
    true
}

// ── trimming ────────────────────────────────────────────────────────────
/// Number of whitespace characters at the front.
pub open spec fn ws_lead(s: Seq<char>) -> nat
    decreases s.len(),
{
    if s.len() > 0 && is_ws(s[0]) {
        1 + ws_lead(s.drop_first())
    } else {
        0
    }
}

/// Number of whitespace characters at the back.
pub open spec fn ws_trail(s: Seq<char>) -> nat
    decreases s.len(),
{
    if s.len() > 0 && is_ws(s.last()) {
        1 + ws_trail(s.drop_last())
    } else {
        0
    }
}

pub open spec fn trim_start(s: Seq<char>) -> Seq<char> {
    s.skip(ws_lead(s) as int)
}

pub open spec fn trim_end(s: Seq<char>) -> Seq<char> {
    s.take(s.len() - ws_trail(s))
}

/// What `str::trim` gives.
pub open spec fn trim(s: Seq<char>) -> Seq<char> {
    trim_end(trim_start(s))
}

pub proof fn lemma_ws_lead(s: Seq<char>, i: int)
    requires
        0 <= i <= s.len(),
        forall|k: int| 0 <= k < i ==> #[trigger] is_ws(s[k]),
    ensures
        ws_lead(s) == i + ws_lead(s.skip(i)),
    decreases i,
{
    if i > 0 {
        assert(s.drop_first().skip(i - 1) =~= s.skip(i));
        assert forall|k: int| 0 <= k < i - 1 implies #[trigger] is_ws(s.drop_first()[k]) by {
            assert(s.drop_first()[k] == s[k + 1]);
        }
        assert(is_ws(s[0]));
        lemma_ws_lead(s.drop_first(), i - 1);
    } else {
        assert(s.skip(0) =~= s);
    }
}

pub proof fn lemma_ws_trail(s: Seq<char>, i: int)
    requires
        0 <= i <= s.len(),
        forall|k: int| s.len() - i <= k < s.len() ==> #[trigger] is_ws(s[k]),
    ensures
        ws_trail(s) == i + ws_trail(s.take(s.len() - i)),
    decreases i,
{
    if i > 0 {
        assert(s.drop_last().take(s.len() - 1 - (i - 1)) =~= s.take(s.len() - i));
        assert forall|k: int|
            s.drop_last().len() - (i - 1) <= k < s.drop_last().len() implies #[trigger] is_ws(
            s.drop_last()[k],
        ) by {
            assert(s.drop_last()[k] == s[k]);
        }
        assert(is_ws(s[s.len() - 1]));
        lemma_ws_trail(s.drop_last(), i - 1);
    } else {
        assert(s.take(s.len() as int) =~= s);
    }
}

/// `s` without leading whitespace.
pub fn trim_start_vec(s: &Vec<char>) -> (r: Vec<char>)
    ensures
        r@ == trim_start(s@),
{
    let mut i: usize = 0;
    while i < s.len() && ws_char(s[i])
        invariant
            i <= s@.len(),
            forall|k: int| 0 <= k < i ==> #[trigger] is_ws(s@[k]),
        decreases s@.len() - i,
    {
        i = i + 1;
    }
    proof {
        lemma_ws_lead(s@, i as int);
        if i < s@.len() {
            assert(!is_ws(s@.skip(i as int)[0]));
        }
    }
    slice(s, i, s.len())
}

/// `s` without trailing whitespace.
pub fn trim_end_vec(s: &Vec<char>) -> (r: Vec<char>)
    ensures
        r@ == trim_end(s@),
{
    let mut n: usize = s.len();
    while n > 0 && ws_char(s[n - 1])
        invariant
            n <= s@.len(),
            forall|k: int| n <= k < s@.len() ==> #[trigger] is_ws(s@[k]),
        decreases n,
    {
        n = n - 1;
    }
    proof {
        lemma_ws_trail(s@, s@.len() - n);
        let t = s@.take(n as int);
        if n > 0 {
            assert(t.last() == s@[n - 1]);
        }
    }
    slice(s, 0, n)
}

/// `s` without surrounding whitespace, as `str::trim` gives it.
pub fn trim_vec(s: &Vec<char>) -> (r: Vec<char>)
    ensures
        r@ == trim(s@),
{
    let t = trim_start_vec(s);
    trim_end_vec(&t)
}

// ── strings ─────────────────────────────────────────────────────────────
/// The characters of a string slice, in order.
pub fn chars_of(s: &str) -> (out: Vec<char>)
    ensures
        out@ == s@,
{
    let mut out: Vec<char> = Vec::new();
    for c in it: s.chars()
        invariant
            out@ == it.seq().take(it.index() as int),
    {
        out.push(c);
    }
    out
}

/// Append one character to a `String` by calling std's `String::push`.
/// Trusted, not proved: the contract claims what std documents for it,
/// that the character is appended to the end, so the string's characters
/// afterwards are the old ones followed by `c`.
#[verifier::external_body]
fn push_char(s: &mut String, c: char)
    ensures
        final(s)@ == old(s)@.push(c),
{
    s.push(c);
}

/// A `String` holding exactly these characters.
pub fn string_of(v: &Vec<char>) -> (s: String)
    ensures
        s@ == v@,
{
    let mut s = String::new();
    let mut i: usize = 0;
    while i < v.len()
        invariant
            i <= v@.len(),
            s@ == v@.take(i as int),
        decreases v@.len() - i,
    {
        push_char(&mut s, v[i]);
        i = i + 1;
        assert(v@.take(i as int) =~= v@.take(i - 1).push(v@[i - 1]));
    }
    assert(v@.take(v@.len() as int) =~= v@);
    s
}

/// The characters of a `String`.
pub fn chars_of_string(s: &String) -> (out: Vec<char>)
    ensures
        out@ == s@,
{
    chars_of(s.as_str())
}


// ── splitting ───────────────────────────────────────────────────────────
/// What `str::split(c)` gives: the pieces between occurrences of `c`,
/// always at least one.
pub open spec fn split_on(s: Seq<char>, c: char) -> Seq<Seq<char>>
    decreases s.len(),
{
    if s.len() == 0 {
        seq![Seq::empty()]
    } else {
        let init = split_on(s.drop_last(), c);
        if s.last() == c {
            init.push(Seq::empty())
        } else {
            init.update(init.len() - 1, init.last().push(s.last()))
        }
    }
}

pub proof fn lemma_split_on_len(s: Seq<char>, c: char)
    ensures
        split_on(s, c).len() >= 1,
    decreases s.len(),
{
    if s.len() > 0 {
        lemma_split_on_len(s.drop_last(), c);
    }
}

pub open spec fn pieces_view(v: Seq<Vec<char>>) -> Seq<Seq<char>> {
    v.map_values(|x: Vec<char>| x@)
}

/// Split on every occurrence of `c`.
pub fn split_char(s: &Vec<char>, c: char) -> (r: Vec<Vec<char>>)
    ensures
        pieces_view(r@) == split_on(s@, c),
{
    let mut parts: Vec<Vec<char>> = Vec::new();
    let mut cur: Vec<char> = Vec::new();
    let mut i: usize = 0;
    assert(s@.take(0) =~= Seq::<char>::empty());
    assert(pieces_view(parts@).push(cur@) =~= seq![Seq::<char>::empty()]);
    while i < s.len()
        invariant
            i <= s@.len(),
            pieces_view(parts@).push(cur@) == split_on(s@.take(i as int), c),
        decreases s@.len() - i,
    {
        let ghost before = pieces_view(parts@).push(cur@);
        proof {
            lemma_split_on_len(s@.take(i as int), c);
            assert(s@.take(i + 1).drop_last() =~= s@.take(i as int));
            assert(s@.take(i + 1).last() == s@[i as int]);
        }
        if s[i] == c {
            let done = cur;
            parts.push(done);
            cur = Vec::new();
            assert(pieces_view(parts@).push(cur@) =~= before.push(Seq::empty()));
        } else {
            cur.push(s[i]);
            assert(pieces_view(parts@).push(cur@) =~= before.update(
                before.len() - 1,
                before.last().push(s@[i as int]),
            ));
        }
        i = i + 1;
    }
    parts.push(cur);
    assert(s@.take(s@.len() as int) =~= s@);
    parts
}


// ── UTF-8 length ────────────────────────────────────────────────────────
/// Bytes in the UTF-8 encoding of one character.
pub open spec fn scalar_len(c: char) -> nat {
    if code(c) <= 0x7F {
        1
    } else if code(c) <= 0x7FF {
        2
    } else if code(c) <= 0xFFFF {
        3
    } else {
        4
    }
}

/// Bytes in the UTF-8 encoding of a text.
pub open spec fn chars_byte_len(s: Seq<char>) -> nat
    decreases s.len(),
{
    if s.len() == 0 {
        0
    } else {
        scalar_len(s[0]) + chars_byte_len(s.drop_first())
    }
}

pub proof fn lemma_chars_byte_len(s: Seq<char>)
    ensures
        encode_utf8(s).len() == chars_byte_len(s),
    decreases s.len(),
{
    if s.len() > 0 {
        lemma_chars_byte_len(s.drop_first());
        vstd::utf8::char_is_scalar(s[0]);
    }
}

/// Whether the UTF-8 encoding of `s` is longer than `max` bytes.
pub fn exceeds_bytes(s: &Vec<char>, max: usize) -> (r: bool)
    ensures
        r == (encode_utf8(s@).len() > max),
{
    proof {
        lemma_chars_byte_len(s@);
    }
    let mut total: usize = 0;
    let mut i: usize = s.len();
    assert(s@.skip(s@.len() as int) =~= Seq::<char>::empty());
    while i > 0
        invariant
            i <= s@.len(),
            total == chars_byte_len(s@.skip(i as int)),
            total <= max,
        decreases i,
    {
        let u = s[i - 1] as u32;
        let w: usize = if u <= 0x7F {
            1
        } else if u <= 0x7FF {
            2
        } else if u <= 0xFFFF {
            3
        } else {
            4
        };
        assert(s@.skip(i - 1).drop_first() =~= s@.skip(i as int));
        assert(s@.skip(i - 1)[0] == s@[i - 1]);
        assert(w == scalar_len(s@[i - 1]));
        assert(chars_byte_len(s@.skip(i - 1)) == w + total);
        if w > max - total {
            proof {
                lemma_byte_len_suffix_grows(s@, i - 1);
                lemma_chars_byte_len(s@);
            }
            return true;
        }
        total = total + w;
        i = i - 1;
    }
    assert(s@.skip(0) =~= s@);
    false
}

/// The length in bytes of the UTF-8 encoding of `s`.
pub fn byte_len(s: &Vec<char>) -> (r: u128)
    ensures
        r == encode_utf8(s@).len(),
{
    proof {
        lemma_chars_byte_len(s@);
    }
    let mut total: u128 = 0;
    let n = s.len();
    let mut i: usize = n;
    assert(s@.skip(s@.len() as int) =~= Seq::<char>::empty());
    while i > 0
        invariant
            n == s@.len(),
            i <= n,
            total == chars_byte_len(s@.skip(i as int)),
            total <= 4 * (n - i),
        decreases i,
    {
        let u = s[i - 1] as u32;
        let w: u128 = if u <= 0x7F {
            1
        } else if u <= 0x7FF {
            2
        } else if u <= 0xFFFF {
            3
        } else {
            4
        };
        assert(s@.skip(i - 1).drop_first() =~= s@.skip(i as int));
        assert(s@.skip(i - 1)[0] == s@[i - 1]);
        assert(w == scalar_len(s@[i - 1]));
        total = total + w;
        i = i - 1;
    }
    assert(s@.skip(0) =~= s@);
    total
}

proof fn lemma_byte_len_suffix_grows(s: Seq<char>, i: int)
    requires
        0 <= i <= s.len(),
    ensures
        chars_byte_len(s.skip(i)) <= chars_byte_len(s),
    decreases i,
{
    if i > 0 {
        assert(s.skip(i - 1).drop_first() =~= s.skip(i));
        lemma_byte_len_suffix_grows(s, i - 1);
    } else {
        assert(s.skip(0) =~= s);
    }
}

} // verus!
