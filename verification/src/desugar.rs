//! The text rewrites a range goes through before its comparators are
//! read: partial versions, caret, tilde, X-ranges, hyphen ranges, the
//! gluing of operators to their versions, and splitting into words.
use crate::comparator::Op;
use crate::constants::{Options, MAX_SAFE_INTEGER};
use crate::semver::{eqv_lead, main_text, push_main, strip_eqv};
use crate::text::{
    all_digits, alpha_char, ascii_ws_char, is_ascii_ws, string_of, dec_value, digit_char, is_alpha, is_digit, is_ws, push_all, read_number,
    slice, split_char, split_on, pieces_view, trim, trim_vec, ws_char, lemma_split_on_len,
};
use vstd::prelude::*;
use vstd::utf8::encode_utf8;

verus! {

// ── finding and splitting ───────────────────────────────────────────────
/// The first index at or after `i` holding `c`, or the length.
pub open spec fn find_from(s: Seq<char>, c: char, i: int) -> int
    decreases s.len() - i,
{
    if i >= s.len() {
        s.len() as int
    } else if s[i] == c {
        i
    } else {
        find_from(s, c, i + 1)
    }
}

/// The first index of `c`, or the length.
pub open spec fn find(s: Seq<char>, c: char) -> int {
    find_from(s, c, 0)
}

pub proof fn lemma_find_from(s: Seq<char>, c: char, i: int)
    requires
        0 <= i <= s.len(),
    ensures
        i <= find_from(s, c, i) <= s.len(),
        find_from(s, c, i) < s.len() ==> s[find_from(s, c, i)] == c,
        forall|k: int| i <= k < find_from(s, c, i) ==> s[k] != c,
    decreases s.len() - i,
{
    if i < s.len() && s[i] != c {
        lemma_find_from(s, c, i + 1);
    }
}

/// The first index of `c` in `s`, or its length.
pub fn find_char(s: &Vec<char>, c: char) -> (r: usize)
    ensures
        r == find(s@, c),
        r <= s@.len(),
{
    let mut i: usize = 0;
    while i < s.len() && s[i] != c
        invariant
            i <= s@.len(),
            find_from(s@, c, i as int) == find(s@, c),
        decreases s@.len() - i,
    {
        i = i + 1;
    }
    i
}

/// What `str::split_whitespace` gives, reading from `i` with the word
/// `cur` begun.
pub open spec fn words_from(s: Seq<char>, i: int, cur: Seq<char>) -> Seq<Seq<char>>
    decreases s.len() - i,
{
    if i >= s.len() {
        if cur.len() > 0 {
            seq![cur]
        } else {
            Seq::empty()
        }
    } else if is_ws(s[i]) {
        (if cur.len() > 0 {
            seq![cur]
        } else {
            Seq::empty()
        }) + words_from(s, i + 1, Seq::empty())
    } else {
        words_from(s, i + 1, cur.push(s[i]))
    }
}

/// The whitespace-separated words of a text.
pub open spec fn words(s: Seq<char>) -> Seq<Seq<char>> {
    words_from(s, 0, Seq::empty())
}

/// Split on whitespace, dropping empty pieces.
pub fn split_words(s: &Vec<char>) -> (r: Vec<Vec<char>>)
    ensures
        pieces_view(r@) == words(s@),
{
    let mut out: Vec<Vec<char>> = Vec::new();
    let mut cur: Vec<char> = Vec::new();
    let mut i: usize = 0;
    assert(pieces_view(out@) + words_from(s@, 0, cur@) =~= words(s@));
    while i < s.len()
        invariant
            i <= s@.len(),
            pieces_view(out@) + words_from(s@, i as int, cur@) == words(s@),
        decreases s@.len() - i,
    {
        let ghost before = pieces_view(out@);
        if ws_char(s[i]) {
            if cur.len() > 0 {
                let done = cur;
                out.push(done);
                cur = Vec::new();
                assert(pieces_view(out@) =~= before.push(done@));
                assert(pieces_view(out@) + words_from(s@, i + 1, cur@) =~= before + (seq![done@]
                    + words_from(s@, i + 1, Seq::empty())));
            } else {
                assert(cur@ =~= Seq::<char>::empty());
                assert(before + words_from(s@, i + 1, cur@) =~= before + (Seq::empty()
                    + words_from(s@, i + 1, Seq::empty())));
            }
        } else {
            cur.push(s[i]);
        }
        i = i + 1;
    }
    if cur.len() > 0 {
        let ghost before = pieces_view(out@);
        let done = cur;
        out.push(done);
        assert(pieces_view(out@) =~= before + seq![done@]);
    } else {
        assert(pieces_view(out@) =~= pieces_view(out@) + Seq::<Seq<char>>::empty());
    }
    out
}

/// What `str::split("||")` gives, reading from `i` with the piece `cur`
/// begun.
pub open spec fn bars_from(s: Seq<char>, i: int, cur: Seq<char>) -> Seq<Seq<char>>
    decreases s.len() - i,
{
    if i >= s.len() {
        seq![cur]
    } else if s[i] == '|' && i + 1 < s.len() && s[i + 1] == '|' {
        seq![cur] + bars_from(s, i + 2, Seq::empty())
    } else {
        bars_from(s, i + 1, cur.push(s[i]))
    }
}

/// The `||`-separated alternatives of a range.
pub open spec fn bars(s: Seq<char>) -> Seq<Seq<char>> {
    bars_from(s, 0, Seq::empty())
}

/// Split on every `||`, left to right.
pub fn split_bars(s: &Vec<char>) -> (r: Vec<Vec<char>>)
    ensures
        pieces_view(r@) == bars(s@),
{
    let mut out: Vec<Vec<char>> = Vec::new();
    let mut cur: Vec<char> = Vec::new();
    let mut i: usize = 0;
    let n = s.len();
    assert(pieces_view(out@) + bars_from(s@, 0, cur@) =~= bars(s@));
    while i < n
        invariant
            n == s@.len(),
            i <= n,
            pieces_view(out@) + bars_from(s@, i as int, cur@) == bars(s@),
        decreases n - i,
    {
        let ghost before = pieces_view(out@);
        if s[i] == '|' && i + 1 < n && s[i + 1] == '|' {
            let done = cur;
            out.push(done);
            cur = Vec::new();
            assert(pieces_view(out@) =~= before.push(done@));
            assert(pieces_view(out@) + bars_from(s@, i + 2, cur@) =~= before + (seq![done@]
                + bars_from(s@, i + 2, Seq::empty())));
            i = i + 2;
        } else {
            cur.push(s[i]);
            i = i + 1;
        }
    }
    let ghost before = pieces_view(out@);
    let done = cur;
    out.push(done);
    assert(pieces_view(out@) =~= before + seq![done@]);
    out
}

// ── partial versions ────────────────────────────────────────────────────
/// A partial version as written in a range: any of the three numbers may
/// be a wildcard (`None`), and a prerelease may follow. Build metadata is
/// read and discarded.
pub struct PartialView {
    pub major: Option<u64>,
    pub minor: Option<u64>,
    pub patch: Option<u64>,
    pub pre: Option<Seq<char>>,
}

/// The first `i > 0` where a letter directly follows a digit, from `i`,
/// or the length.
pub open spec fn letter_after_digit_from(t: Seq<char>, i: int) -> int
    decreases t.len() - i,
{
    if i >= t.len() {
        t.len() as int
    } else if i > 0 && is_alpha(t[i]) && is_digit(t[i - 1]) {
        i
    } else {
        letter_after_digit_from(t, i + 1)
    }
}

pub open spec fn letter_after_digit(t: Seq<char>) -> int {
    letter_after_digit_from(t, 1)
}

/// A wildcard component: `x`, `X`, `*` or nothing.
pub open spec fn is_wild(t: Seq<char>) -> bool {
    t.len() == 0 || t == seq!['x'] || t == seq!['X'] || t == seq!['*']
}

/// One component: `Some(None)` for a wildcard or an absent component,
/// `Some(Some(n))` for a number, `None` when it cannot be read (a
/// leading zero in strict mode, a non-number, or a value above
/// `MAX_SAFE_INTEGER`).
pub open spec fn component(t: Option<Seq<char>>, loose: bool) -> Option<Option<u64>> {
    match t {
        None => Some(None),
        Some(t) => if is_wild(t) {
            Some(None)
        } else if !loose && t.len() > 1 && t[0] == '0' {
            None
        } else if all_digits(t) && dec_value(t) <= MAX_SAFE_INTEGER {
            Some(Some(dec_value(t) as u64))
        } else {
            None
        },
    }
}

/// The text a partial version is read from: in loose mode without
/// leading `=`/`v` characters, in strict mode without one leading `v`.
pub open spec fn partial_body(s: Seq<char>, loose: bool) -> Seq<char> {
    if loose {
        trim(s.skip(eqv_lead(s) as int))
    } else if s.len() > 0 && s[0] == 'v' {
        s.drop_first()
    } else {
        s
    }
}

/// The numbers and the prerelease of a partial version's head (the text
/// before any `+`), or `None` when the head has no reading.
pub open spec fn split_head(head: Seq<char>, loose: bool) -> Option<(Seq<char>, Option<Seq<char>>)> {
    let i = find(head, '-');
    if 0 < i < head.len() && find(head.take(i), '.') == i {
        None
    } else if 0 < i < head.len() {
        Some((head.take(i), Some(head.skip(i + 1))))
    } else {
        let k = letter_after_digit(head);
        if k < head.len() {
            if loose {
                Some((head.take(k), Some(head.skip(k))))
            } else {
                None
            }
        } else {
            Some((head, None))
        }
    }
}

/// The `k`-th dot-separated piece, if there is one.
pub open spec fn piece(parts: Seq<Seq<char>>, k: int) -> Option<Seq<char>> {
    if k < parts.len() {
        Some(parts[k])
    } else {
        None
    }
}

/// What a partial version reads as, or `None` when it is not one.
pub open spec fn partial_of(s0: Seq<char>, loose: bool) -> Option<PartialView> {
    let s1 = trim(s0);
    if s1.len() == 0 {
        None
    } else {
        let s = partial_body(s1, loose);
        let head = s.take(find(s, '+'));
        match split_head(head, loose) {
            None => None,
            Some((numbers, pre)) => {
                let parts = split_on(numbers, '.');
                let major = component(piece(parts, 0), loose);
                let minor = component(piece(parts, 1), loose);
                let patch = component(piece(parts, 2), loose);
                if major is None || minor is None || patch is None || parts.len() > 3 {
                    None
                } else {
                    let ma = major->Some_0;
                    let mi = minor->Some_0;
                    let pa = patch->Some_0;
                    if (ma is None && (mi is Some || pa is Some)) || (mi is None && pa is Some) {
                        None
                    } else if pre is Some && find(numbers, '.') == numbers.len() {
                        None
                    } else {
                        Some(PartialView { major: ma, minor: mi, patch: pa, pre })
                    }
                }
            },
        }
    }
}

/// Every number of a partial version is at most `MAX_SAFE_INTEGER`.
pub open spec fn partial_bounded(p: PartialView) -> bool {
    &&& p.major matches Some(n) ==> n <= MAX_SAFE_INTEGER
    &&& p.minor matches Some(n) ==> n <= MAX_SAFE_INTEGER
    &&& p.patch matches Some(n) ==> n <= MAX_SAFE_INTEGER
}

/// A partial version in executable form.
pub struct Partial {
    pub major: Option<u64>,
    pub minor: Option<u64>,
    pub patch: Option<u64>,
    pub pre: Option<Vec<char>>,
}

impl View for Partial {
    type V = PartialView;

    open spec fn view(&self) -> PartialView {
        PartialView {
            major: self.major,
            minor: self.minor,
            patch: self.patch,
            pre: match self.pre {
                Some(p) => Some(p@),
                None => None,
            },
        }
    }
}

/// The first letter directly after a digit, or the length.
fn letter_after_digit_exec(t: &Vec<char>) -> (r: usize)
    ensures
        r == letter_after_digit(t@),
{
    let mut i: usize = 1;
    if t.len() == 0 {
        return 0;
    }
    while i < t.len() && !(alpha_char(t[i]) && digit_char(t[i - 1]))
        invariant
            1 <= i <= t@.len(),
            letter_after_digit_from(t@, i as int) == letter_after_digit(t@),
        decreases t@.len() - i,
    {
        i = i + 1;
    }
    i
}

fn split_head_exec(head: &Vec<char>, loose: bool) -> (r: Option<(Vec<char>, Option<Vec<char>>)>)
    ensures
        match split_head(head@, loose) {
            None => r is None,
            Some((n, p)) => r is Some && r->Some_0.0@ == n && match p {
                None => r->Some_0.1 is None,
                Some(q) => r->Some_0.1 is Some && r->Some_0.1->Some_0@ == q,
            },
        },
{
    let i = find_char(head, '-');
    if 0 < i && i < head.len() {
        let numbers = slice(head, 0, i);
        assert(numbers@ =~= head@.take(i as int));
        if find_char(&numbers, '.') == i {
            return None;
        }
        let pre = slice(head, i + 1, head.len());
        assert(pre@ =~= head@.skip(i + 1));
        return Some((numbers, Some(pre)));
    }
    let k = letter_after_digit_exec(head);
    if k < head.len() {
        if loose {
            let numbers = slice(head, 0, k);
            let pre = slice(head, k, head.len());
            assert(numbers@ =~= head@.take(k as int));
            assert(pre@ =~= head@.skip(k as int));
            Some((numbers, Some(pre)))
        } else {
            None
        }
    } else {
        let numbers = slice(head, 0, head.len());
        assert(numbers@ =~= head@);
        Some((numbers, None))
    }
}

fn is_wild_exec(t: &Vec<char>) -> (r: bool)
    ensures
        r == is_wild(t@),
{
    let r = t.len() == 0 || (t.len() == 1 && (t[0] == 'x' || t[0] == 'X' || t[0] == '*'));
    proof {
        if t@.len() == 1 {
            if t@[0] == 'x' {
                assert(t@ =~= seq!['x']);
            }
            if t@[0] == 'X' {
                assert(t@ =~= seq!['X']);
            }
            if t@[0] == '*' {
                assert(t@ =~= seq!['*']);
            }
        }
    }
    r
}

pub fn all_digits_exec(t: &Vec<char>) -> (r: bool)
    ensures
        r == all_digits(t@),
{
    let mut i: usize = 0;
    while i < t.len()
        invariant
            i <= t@.len(),
            forall|k: int| 0 <= k < i ==> #[trigger] is_digit(t@[k]),
        decreases t@.len() - i,
    {
        if !digit_char(t[i]) {
            return false;
        }
        i = i + 1;
    }
    true
}

/// Read one component.
fn component_exec(t: Option<&Vec<char>>, loose: bool) -> (r: Option<Option<u64>>)
    ensures
        r matches Some(Some(n)) ==> n <= MAX_SAFE_INTEGER,
        r == component(
            match t {
                Some(x) => Some(x@),
                None => None,
            },
            loose,
        ),
{
    match t {
        None => Some(None),
        Some(t) => {
            if is_wild_exec(t) {
                Some(None)
            } else if !loose && t.len() > 1 && t[0] == '0' {
                None
            } else if all_digits_exec(t) {
                assert(t@.subrange(0, t@.len() as int) =~= t@);
                match read_number(t, 0, t.len()) {
                    Some(n) => Some(Some(n)),
                    None => None,
                }
            } else {
                None
            }
        },
    }
}

/// Read a partial version.
pub fn parse_partial(s0: &Vec<char>, loose: bool) -> (r: Option<Partial>)
    ensures
        match partial_of(s0@, loose) {
            None => r is None,
            Some(p) => r is Some && r->Some_0@ == p,
        },
        r matches Some(p) ==> partial_bounded(p@),
{
    let s1 = trim_vec(s0);
    if s1.len() == 0 {
        return None;
    }
    let s = if loose {
        let t = strip_eqv(&s1);
        trim_vec(&t)
    } else if s1[0] == 'v' {
        let t = slice(&s1, 1, s1.len());
        assert(t@ =~= s1@.drop_first());
        t
    } else {
        s1
    };
    assert(s@ == partial_body(trim(s0@), loose));
    let plus = find_char(&s, '+');
    let head = slice(&s, 0, plus);
    assert(head@ =~= s@.take(plus as int));
    let (numbers, pre) = match split_head_exec(&head, loose) {
        None => {
            return None;
        },
        Some(x) => x,
    };
    let parts = split_char(&numbers, '.');
    proof {
        lemma_split_on_len(numbers@, '.');
    }
    let ghost pv = split_on(numbers@, '.');
    assert(parts@.len() == pv.len());
    let major = component_exec(Some(&parts[0]), loose);
    let minor = if parts.len() > 1 {
        component_exec(Some(&parts[1]), loose)
    } else {
        component_exec(None, loose)
    };
    let patch = if parts.len() > 2 {
        component_exec(Some(&parts[2]), loose)
    } else {
        component_exec(None, loose)
    };
    assert(pv[0] == parts@[0]@);
    assert(parts@.len() > 1 ==> pv[1] == parts@[1]@);
    assert(parts@.len() > 2 ==> pv[2] == parts@[2]@);
    if major.is_none() || minor.is_none() || patch.is_none() || parts.len() > 3 {
        return None;
    }
    let ma = major.unwrap();
    let mi = minor.unwrap();
    let pa = patch.unwrap();
    if (ma.is_none() && (mi.is_some() || pa.is_some())) || (mi.is_none() && pa.is_some()) {
        return None;
    }
    if pre.is_some() && find_char(&numbers, '.') == numbers.len() {
        return None;
    }
    Some(Partial { major: ma, minor: mi, patch: pa, pre })
}

// ── caret, tilde and X-ranges ───────────────────────────────────────────
/// The zero-width space that marks an explicit `>=0.0.0` lower bound,
/// written for a major component spelled with a leading zero (`^00`).
/// It is not whitespace, so it stays attached to its word, and it is
/// removed before the comparator is read.
pub open spec fn keep_zero() -> char {
    '\u{200b}'
}

/// `-0` when prereleases are admitted, else nothing.
pub open spec fn zero_tag(o: Options) -> Seq<char> {
    if o.include_prerelease {
        seq!['-', '0']
    } else {
        Seq::empty()
    }
}

/// `>=a.b.c`
pub open spec fn at_least(a: u64, b: u64, c: u64) -> Seq<char> {
    seq!['>', '='] + main_text(a, b, c)
}

/// `<a.b.c-0`
pub open spec fn below(a: u64, b: u64, c: u64) -> Seq<char> {
    seq!['<'] + main_text(a, b, c) + seq!['-', '0']
}

/// `-pre` when a prerelease was written.
pub open spec fn pre_tag(p: Option<Seq<char>>) -> Seq<char> {
    match p {
        Some(q) => seq!['-'] + q,
        None => Seq::empty(),
    }
}

/// The number of leading characters of `s` that are in `set`.
pub open spec fn lead_in(s: Seq<char>, a: char, b: char) -> nat
    decreases s.len(),
{
    if s.len() > 0 && (s[0] == a || s[0] == b) {
        1 + lead_in(s.drop_first(), a, b)
    } else {
        0
    }
}

/// The index of the first `.`, `-` or `+`, or the length.
pub open spec fn first_sep_from(s: Seq<char>, i: int) -> int
    decreases s.len() - i,
{
    if i >= s.len() {
        s.len() as int
    } else if s[i] == '.' || s[i] == '-' || s[i] == '+' {
        i
    } else {
        first_sep_from(s, i + 1)
    }
}

/// Whether the major component was written with a leading zero, such as
/// `00` in `^00` or `~00.1`: the text before the first `.`, `-` or `+`,
/// without leading `v`/`V`, is at least two digits and starts with `0`.
pub open spec fn major_leading_zero(body: Seq<char>) -> bool {
    let h = body.take(first_sep_from(body, 0));
    let d = h.skip(lead_in(h, 'v', 'V') as int);
    d.len() > 1 && d[0] == '0' && all_digits(d)
}

/// The marker, where the major is a zero written with a leading zero.
pub open spec fn zero_mark(major: u64, body: Seq<char>) -> Seq<char> {
    if major == 0 && major_leading_zero(body) {
        seq![keep_zero()]
    } else {
        Seq::empty()
    }
}

/// What `^` rewrites to: `None` when the token is not a caret range.
/// The left-most non-zero component may not change; with a zero major
/// only patch changes are allowed, and every upper bound ends in `-0`.
pub open spec fn caret_text(token: Seq<char>, o: Options) -> Option<Seq<char>> {
    if token.len() == 0 || token[0] != '^' {
        None
    } else {
        let b = token.skip(1);
        let body = b.skip(lead_in(b, '=', '=') as int);
        match partial_of(body, o.loose) {
            None => None,
            Some(p) => match p.major {
                None => Some(Seq::empty()),
                Some(ma) => {
                    let z = zero_tag(o);
                    let zm = zero_mark(ma, body);
                    Some(
                        match (p.minor, p.patch) {
                            (None, _) => at_least(ma, 0, 0) + z + zm + seq![' '] + below(
                                (ma + 1) as u64,
                                0,
                                0,
                            ),
                            (Some(mi), None) => if ma == 0 {
                                at_least(ma, mi, 0) + z + zm + seq![' '] + below(
                                    ma,
                                    (mi + 1) as u64,
                                    0,
                                )
                            } else {
                                at_least(ma, mi, 0) + z + seq![' '] + below((ma + 1) as u64, 0, 0)
                            },
                            (Some(mi), Some(pa)) => {
                                let lo = at_least(ma, mi, pa) + pre_tag(p.pre);
                                if ma == 0 {
                                    if mi == 0 {
                                        lo + seq![' '] + below(ma, mi, (pa + 1) as u64)
                                    } else {
                                        lo + seq![' '] + below(ma, (mi + 1) as u64, 0)
                                    }
                                } else {
                                    lo + seq![' '] + below((ma + 1) as u64, 0, 0)
                                }
                            },
                        },
                    )
                },
            },
        }
    }
}

/// What `~` (or `~>`) rewrites to: patch-level changes when a minor is
/// given, minor-level changes when it is not.
pub open spec fn tilde_text(token: Seq<char>, o: Options) -> Option<Seq<char>> {
    if token.len() == 0 || token[0] != '~' {
        None
    } else {
        let b1 = token.skip(1);
        let b2 = if b1.len() > 0 && b1[0] == '>' {
            b1.skip(1)
        } else {
            b1
        };
        let body = b2.skip(lead_in(b2, '=', '=') as int);
        match partial_of(body, o.loose) {
            None => None,
            Some(p) => match p.major {
                None => Some(Seq::empty()),
                Some(ma) => {
                    let z = zero_tag(o);
                    let zm = zero_mark(ma, body);
                    Some(
                        match (p.minor, p.patch) {
                            (None, _) => at_least(ma, 0, 0) + z + zm + seq![' '] + below(
                                (ma + 1) as u64,
                                0,
                                0,
                            ),
                            (Some(mi), None) => at_least(ma, mi, 0) + z + zm + seq![' '] + below(
                                ma,
                                (mi + 1) as u64,
                                0,
                            ),
                            (Some(mi), Some(pa)) => at_least(ma, mi, pa) + pre_tag(p.pre) + seq![
                                ' ',
                            ] + below(ma, (mi + 1) as u64, 0),
                        },
                    )
                },
            },
        }
    }
}

/// The operator in front of an X-range and the trimmed rest.
pub open spec fn xsplit(s: Seq<char>) -> (Option<Op>, Seq<char>) {
    if s.len() >= 2 && s[0] == '<' && s[1] == '=' {
        (Some(Op::Lte), trim(s.skip(2)))
    } else if s.len() >= 2 && s[0] == '>' && s[1] == '=' {
        (Some(Op::Gte), trim(s.skip(2)))
    } else if s.len() >= 1 && s[0] == '<' {
        (Some(Op::Lt), trim(s.skip(1)))
    } else if s.len() >= 1 && s[0] == '>' {
        (Some(Op::Gt), trim(s.skip(1)))
    } else if s.len() >= 1 && s[0] == '=' {
        (Some(Op::Eq), trim(s.skip(1)))
    } else {
        (None, s)
    }
}

/// What an X-range (`1.2.x`, `1.x`, `*`, with or without an operator)
/// rewrites to: `None` when the text is not a partial version or has
/// every component.
pub open spec fn xrange_text(token: Seq<char>, o: Options) -> Option<Seq<char>> {
    let text = trim(token);
    if text.len() == 0 {
        None
    } else {
        let (op, rest) = xsplit(text);
        match partial_of(rest, o.loose) {
            None => None,
            Some(p) => if p.major is Some && p.minor is Some && p.patch is Some {
                None
            } else if p.major is None {
                Some(
                    if op == Some(Op::Gt) || op == Some(Op::Lt) {
                        below(0, 0, 0)
                    } else {
                        seq!['*']
                    },
                )
            } else {
                let ma = p.major->Some_0;
                let xm = p.minor is None;
                let mi: u64 = if xm {
                    0
                } else {
                    p.minor->Some_0
                };
                let z = zero_tag(o);
                Some(
                    match op {
                        Some(Op::Gt) => if xm {
                            at_least((ma + 1) as u64, 0, 0) + z
                        } else {
                            at_least(ma, (mi + 1) as u64, 0) + z
                        },
                        Some(Op::Lte) => if xm {
                            below((ma + 1) as u64, 0, 0)
                        } else {
                            below(ma, (mi + 1) as u64, 0)
                        },
                        Some(Op::Gte) => at_least(ma, mi, 0) + z,
                        Some(Op::Lt) => below(ma, mi, 0),
                        _ => {
                            let lo = at_least(ma, mi, 0) + z + zero_mark(ma, rest);
                            if xm {
                                lo + seq![' '] + below((ma + 1) as u64, 0, 0)
                            } else {
                                lo + seq![' '] + below(ma, (mi + 1) as u64, 0)
                            }
                        },
                    },
                )
            },
        }
    }
}

fn push_at_least(out: &mut Vec<char>, a: u64, b: u64, c: u64)
    ensures
        final(out)@ == old(out)@ + at_least(a, b, c),
{
    out.push('>');
    out.push('=');
    push_main(out, a, b, c);
    assert(out@ =~= old(out)@ + at_least(a, b, c));
}

fn push_below(out: &mut Vec<char>, a: u64, b: u64, c: u64)
    ensures
        final(out)@ == old(out)@ + below(a, b, c),
{
    out.push('<');
    push_main(out, a, b, c);
    out.push('-');
    out.push('0');
    assert(out@ =~= old(out)@ + below(a, b, c));
}

fn push_zero_tag(out: &mut Vec<char>, o: Options)
    ensures
        final(out)@ == old(out)@ + zero_tag(o),
{
    if o.include_prerelease {
        out.push('-');
        out.push('0');
    }
    assert(out@ =~= old(out)@ + zero_tag(o));
}

fn push_pre_tag(out: &mut Vec<char>, p: &Option<Vec<char>>)
    ensures
        final(out)@ == old(out)@ + pre_tag(
            match p {
                Some(q) => Some(q@),
                None => None,
            },
        ),
{
    match p {
        Some(q) => {
            out.push('-');
            push_all(out, q);
        },
        None => {},
    }
    assert(out@ =~= old(out)@ + pre_tag(
        match p {
            Some(q) => Some(q@),
            None => None,
        },
    ));
}

/// `s` without its leading `a`/`b` characters.
pub fn strip_lead(s: &Vec<char>, a: char, b: char) -> (r: Vec<char>)
    ensures
        r@ == s@.skip(lead_in(s@, a, b) as int),
{
    let mut i: usize = 0;
    assert(s@.skip(0) =~= s@);
    while i < s.len() && (s[i] == a || s[i] == b)
        invariant
            i <= s@.len(),
            lead_in(s@.skip(i as int), a, b) + i == lead_in(s@, a, b),
        decreases s@.len() - i,
    {
        assert(s@.skip(i as int).drop_first() =~= s@.skip(i + 1));
        i = i + 1;
    }
    proof {
        if i < s@.len() {
            assert(s@.skip(i as int)[0] == s@[i as int]);
        }
    }
    slice(s, i, s.len())
}

fn first_sep(s: &Vec<char>) -> (r: usize)
    ensures
        r == first_sep_from(s@, 0),
        r <= s@.len(),
{
    let mut i: usize = 0;
    while i < s.len() && !(s[i] == '.' || s[i] == '-' || s[i] == '+')
        invariant
            i <= s@.len(),
            first_sep_from(s@, i as int) == first_sep_from(s@, 0),
        decreases s@.len() - i,
    {
        i = i + 1;
    }
    i
}

fn major_leading_zero_exec(body: &Vec<char>) -> (r: bool)
    ensures
        r == major_leading_zero(body@),
{
    let e = first_sep(body);
    let h = slice(body, 0, e);
    assert(h@ =~= body@.take(e as int));
    let d = strip_lead(&h, 'v', 'V');
    d.len() > 1 && d[0] == '0' && all_digits_exec(&d)
}

fn push_zero_mark(out: &mut Vec<char>, major: u64, body: &Vec<char>)
    ensures
        final(out)@ == old(out)@ + zero_mark(major, body@),
{
    if major == 0 && major_leading_zero_exec(body) {
        out.push('\u{200b}');
    }
    assert(out@ =~= old(out)@ + zero_mark(major, body@));
}

/// Rewrite a caret range; `None` when the token is not one.
pub fn caret_chars(token: &Vec<char>, o: Options) -> (r: Option<Vec<char>>)
    ensures
        match caret_text(token@, o) {
            None => r is None,
            Some(t) => r is Some && r->Some_0@ == t,
        },
{
    if token.len() == 0 || token[0] != '^' {
        return None;
    }
    let b = slice(token, 1, token.len());
    assert(b@ =~= token@.skip(1));
    let body = strip_lead(&b, '=', '=');
    let p = match parse_partial(&body, o.loose) {
        None => {
            return None;
        },
        Some(p) => p,
    };
    let ma = match p.major {
        None => {
            return Some(Vec::new());
        },
        Some(m) => m,
    };
    let mut out: Vec<char> = Vec::new();
    match (p.minor, p.patch) {
        (None, _) => {
            push_at_least(&mut out, ma, 0, 0);
            push_zero_tag(&mut out, o);
            push_zero_mark(&mut out, ma, &body);
            out.push(' ');
            push_below(&mut out, ma + 1, 0, 0);
        },
        (Some(mi), None) => {
            if ma == 0 {
                push_at_least(&mut out, ma, mi, 0);
                push_zero_tag(&mut out, o);
                push_zero_mark(&mut out, ma, &body);
                out.push(' ');
                push_below(&mut out, ma, mi + 1, 0);
            } else {
                push_at_least(&mut out, ma, mi, 0);
                push_zero_tag(&mut out, o);
                out.push(' ');
                push_below(&mut out, ma + 1, 0, 0);
            }
        },
        (Some(mi), Some(pa)) => {
            push_at_least(&mut out, ma, mi, pa);
            push_pre_tag(&mut out, &p.pre);
            out.push(' ');
            if ma == 0 {
                if mi == 0 {
                    push_below(&mut out, ma, mi, pa + 1);
                } else {
                    push_below(&mut out, ma, mi + 1, 0);
                }
            } else {
                push_below(&mut out, ma + 1, 0, 0);
            }
        },
    }
    proof {
        let t = caret_text(token@, o)->Some_0;
        assert(out@ =~= t);
    }
    Some(out)
}

/// Rewrite a tilde range; `None` when the token is not one.
pub fn tilde_chars(token: &Vec<char>, o: Options) -> (r: Option<Vec<char>>)
    ensures
        match tilde_text(token@, o) {
            None => r is None,
            Some(t) => r is Some && r->Some_0@ == t,
        },
{
    if token.len() == 0 || token[0] != '~' {
        return None;
    }
    let b1 = slice(token, 1, token.len());
    assert(b1@ =~= token@.skip(1));
    let b2 = if b1.len() > 0 && b1[0] == '>' {
        let t = slice(&b1, 1, b1.len());
        assert(t@ =~= b1@.skip(1));
        t
    } else {
        b1
    };
    let body = strip_lead(&b2, '=', '=');
    let p = match parse_partial(&body, o.loose) {
        None => {
            return None;
        },
        Some(p) => p,
    };
    let ma = match p.major {
        None => {
            return Some(Vec::new());
        },
        Some(m) => m,
    };
    let mut out: Vec<char> = Vec::new();
    match (p.minor, p.patch) {
        (None, _) => {
            push_at_least(&mut out, ma, 0, 0);
            push_zero_tag(&mut out, o);
            push_zero_mark(&mut out, ma, &body);
            out.push(' ');
            push_below(&mut out, ma + 1, 0, 0);
        },
        (Some(mi), None) => {
            push_at_least(&mut out, ma, mi, 0);
            push_zero_tag(&mut out, o);
            push_zero_mark(&mut out, ma, &body);
            out.push(' ');
            push_below(&mut out, ma, mi + 1, 0);
        },
        (Some(mi), Some(pa)) => {
            push_at_least(&mut out, ma, mi, pa);
            push_pre_tag(&mut out, &p.pre);
            out.push(' ');
            push_below(&mut out, ma, mi + 1, 0);
        },
    }
    proof {
        let t = tilde_text(token@, o)->Some_0;
        assert(out@ =~= t);
    }
    Some(out)
}

/// Split the operator off an X-range.
fn xsplit_exec(s: &Vec<char>) -> (r: (Option<Op>, Vec<char>))
    ensures
        r.0 == xsplit(s@).0,
        r.1@ == xsplit(s@).1,
{
    let n = s.len();
    let (op, k): (Option<Op>, usize) = if n >= 2 && s[0] == '<' && s[1] == '=' {
        (Some(Op::Lte), 2)
    } else if n >= 2 && s[0] == '>' && s[1] == '=' {
        (Some(Op::Gte), 2)
    } else if n >= 1 && s[0] == '<' {
        (Some(Op::Lt), 1)
    } else if n >= 1 && s[0] == '>' {
        (Some(Op::Gt), 1)
    } else if n >= 1 && s[0] == '=' {
        (Some(Op::Eq), 1)
    } else {
        (None, 0)
    };
    if op.is_none() {
        let all = slice(s, 0, n);
        assert(all@ =~= s@);
        return (None, all);
    }
    let t = slice(s, k, n);
    assert(t@ =~= s@.skip(k as int));
    (op, trim_vec(&t))
}

/// Rewrite an X-range; `None` when the text is not one.
pub fn xrange_chars(token: &Vec<char>, o: Options) -> (r: Option<Vec<char>>)
    ensures
        match xrange_text(token@, o) {
            None => r is None,
            Some(t) => r is Some && r->Some_0@ == t,
        },
{
    let text = trim_vec(token);
    if text.len() == 0 {
        return None;
    }
    let (op, rest) = xsplit_exec(&text);
    let p = match parse_partial(&rest, o.loose) {
        None => {
            return None;
        },
        Some(p) => p,
    };
    if p.major.is_some() && p.minor.is_some() && p.patch.is_some() {
        return None;
    }
    let mut out: Vec<char> = Vec::new();
    let ma = match p.major {
        None => {
            if op == Some(Op::Gt) || op == Some(Op::Lt) {
                push_below(&mut out, 0, 0, 0);
            } else {
                out.push('*');
                assert(out@ =~= seq!['*']);
            }
            return Some(out);
        },
        Some(m) => m,
    };
    let xm = p.minor.is_none();
    let mi: u64 = match p.minor {
        None => 0,
        Some(m) => m,
    };
    match op {
        Some(Op::Gt) => {
            if xm {
                push_at_least(&mut out, ma + 1, 0, 0);
            } else {
                push_at_least(&mut out, ma, mi + 1, 0);
            }
            push_zero_tag(&mut out, o);
        },
        Some(Op::Lte) => {
            if xm {
                push_below(&mut out, ma + 1, 0, 0);
            } else {
                push_below(&mut out, ma, mi + 1, 0);
            }
        },
        Some(Op::Gte) => {
            push_at_least(&mut out, ma, mi, 0);
            push_zero_tag(&mut out, o);
        },
        Some(Op::Lt) => {
            push_below(&mut out, ma, mi, 0);
        },
        _ => {
            push_at_least(&mut out, ma, mi, 0);
            push_zero_tag(&mut out, o);
            push_zero_mark(&mut out, ma, &rest);
            out.push(' ');
            if xm {
                push_below(&mut out, ma + 1, 0, 0);
            } else {
                push_below(&mut out, ma, mi + 1, 0);
            }
        },
    }
    proof {
        let t = xrange_text(token@, o)->Some_0;
        assert(out@ =~= t);
    }
    Some(out)
}

// ── hyphen ranges ───────────────────────────────────────────────────────
/// The first `-` from `i` with ASCII whitespace on both sides, or the
/// length.
pub open spec fn hyphen_sep_from(s: Seq<char>, i: int) -> int
    decreases s.len() - i,
{
    if i >= s.len() {
        s.len() as int
    } else if s[i] == '-' && i > 0 && is_ascii_ws(s[i - 1]) && i + 1 < s.len() && is_ascii_ws(
        s[i + 1],
    ) {
        i
    } else {
        hyphen_sep_from(s, i + 1)
    }
}

/// The number of leading characters that are whitespace or `-`.
pub open spec fn ws_dash_lead(s: Seq<char>) -> nat
    decreases s.len(),
{
    if s.len() > 0 && (is_ws(s[0]) || s[0] == '-') {
        1 + ws_dash_lead(s.drop_first())
    } else {
        0
    }
}

/// The lower bound of a hyphen range: a missing component rounds down.
pub open spec fn hyphen_lower(f: PartialView, o: Options) -> Seq<char> {
    match f.major {
        None => Seq::empty(),
        Some(ma) => match (f.minor, f.patch) {
            (None, _) => at_least(ma, 0, 0) + zero_tag(o),
            (Some(mi), None) => at_least(ma, mi, 0) + zero_tag(o),
            (Some(mi), Some(pa)) => match f.pre {
                Some(pr) => at_least(ma, mi, pa) + seq!['-'] + pr,
                None => at_least(ma, mi, pa) + zero_tag(o),
            },
        },
    }
}

/// The upper bound of a hyphen range: a missing component rounds up to
/// the next release and excludes it.
pub open spec fn hyphen_upper(t: PartialView, o: Options) -> Seq<char> {
    match t.major {
        None => Seq::empty(),
        Some(ma) => match (t.minor, t.patch) {
            (None, _) => below((ma + 1) as u64, 0, 0),
            (Some(mi), None) => below(ma, (mi + 1) as u64, 0),
            (Some(mi), Some(pa)) => match t.pre {
                Some(pr) => seq!['<', '='] + main_text(ma, mi, pa) + seq!['-'] + pr,
                None => if o.include_prerelease {
                    below(ma, mi, (pa + 1) as u64)
                } else {
                    seq!['<', '='] + main_text(ma, mi, pa)
                },
            },
        },
    }
}

/// What a hyphen range `<from> - <to>` rewrites to: `None` unless the
/// whole text is exactly three words with `-` in the middle and both ends
/// are partial versions. A leading `=` on the right end is dropped only
/// when that end contains a `-`.
pub open spec fn hyphen_text(text: Seq<char>, o: Options) -> Option<Seq<char>> {
    let ws = words(text);
    if ws.len() != 3 || ws[1] != seq!['-'] {
        None
    } else {
        let idx = hyphen_sep_from(text, 0);
        if idx >= text.len() {
            None
        } else {
            let from_text = trim(text.take(idx));
            let t0 = text.skip(idx);
            let to0 = trim(t0.skip(ws_dash_lead(t0) as int));
            let to_text = if to0.len() > 0 && to0[0] == '=' && find(to0, '-') < to0.len() {
                to0.skip(1)
            } else {
                to0
            };
            match (partial_of(from_text, o.loose), partial_of(to_text, o.loose)) {
                (Some(f), Some(t)) => Some(
                    trim(hyphen_lower(f, o) + seq![' '] + hyphen_upper(t, o)),
                ),
                _ => None,
            }
        }
    }
}

fn hyphen_sep(s: &Vec<char>) -> (r: usize)
    ensures
        r == hyphen_sep_from(s@, 0),
        r <= s@.len(),
{
    let n = s.len();
    let mut i: usize = 0;
    while i < n && !(s[i] == '-' && i > 0 && ascii_ws_char(s[i - 1]) && i + 1 < n && ascii_ws_char(
        s[i + 1],
    ))
        invariant
            n == s@.len(),
            i <= n,
            hyphen_sep_from(s@, i as int) == hyphen_sep_from(s@, 0),
        decreases n - i,
    {
        i = i + 1;
    }
    i
}

fn strip_ws_dash(s: &Vec<char>) -> (r: Vec<char>)
    ensures
        r@ == s@.skip(ws_dash_lead(s@) as int),
{
    let mut i: usize = 0;
    assert(s@.skip(0) =~= s@);
    while i < s.len() && (ws_char(s[i]) || s[i] == '-')
        invariant
            i <= s@.len(),
            ws_dash_lead(s@.skip(i as int)) + i == ws_dash_lead(s@),
        decreases s@.len() - i,
    {
        assert(s@.skip(i as int).drop_first() =~= s@.skip(i + 1));
        i = i + 1;
    }
    proof {
        if i < s@.len() {
            assert(s@.skip(i as int)[0] == s@[i as int]);
        }
    }
    slice(s, i, s.len())
}

fn push_hyphen_lower(out: &mut Vec<char>, f: &Partial, o: Options)
    requires
        partial_bounded(f@),
    ensures
        final(out)@ == old(out)@ + hyphen_lower(f@, o),
{
    match f.major {
        None => {},
        Some(ma) => match (f.minor, f.patch) {
            (None, _) => {
                push_at_least(out, ma, 0, 0);
                push_zero_tag(out, o);
            },
            (Some(mi), None) => {
                push_at_least(out, ma, mi, 0);
                push_zero_tag(out, o);
            },
            (Some(mi), Some(pa)) => {
                push_at_least(out, ma, mi, pa);
                match &f.pre {
                    Some(pr) => {
                        out.push('-');
                        push_all(out, pr);
                    },
                    None => push_zero_tag(out, o),
                }
            },
        },
    }
    assert(out@ =~= old(out)@ + hyphen_lower(f@, o));
}

fn push_hyphen_upper(out: &mut Vec<char>, t: &Partial, o: Options)
    requires
        partial_bounded(t@),
    ensures
        final(out)@ == old(out)@ + hyphen_upper(t@, o),
{
    match t.major {
        None => {},
        Some(ma) => match (t.minor, t.patch) {
            (None, _) => push_below(out, ma + 1, 0, 0),
            (Some(mi), None) => push_below(out, ma, mi + 1, 0),
            (Some(mi), Some(pa)) => match &t.pre {
                Some(pr) => {
                    out.push('<');
                    out.push('=');
                    push_main(out, ma, mi, pa);
                    out.push('-');
                    push_all(out, pr);
                },
                None => {
                    if o.include_prerelease {
                        push_below(out, ma, mi, pa + 1);
                    } else {
                        out.push('<');
                        out.push('=');
                        push_main(out, ma, mi, pa);
                    }
                },
            },
        },
    }
    assert(out@ =~= old(out)@ + hyphen_upper(t@, o));
}

/// Rewrite a hyphen range; `None` when the text is not one.
pub fn hyphen_chars(text: &Vec<char>, o: Options) -> (r: Option<Vec<char>>)
    ensures
        match hyphen_text(text@, o) {
            None => r is None,
            Some(t) => r is Some && r->Some_0@ == t,
        },
{
    let ws = split_words(text);
    if ws.len() != 3 {
        return None;
    }
    assert(pieces_view(ws@)[1] == ws@[1]@);
    if !(ws[1].len() == 1 && ws[1][0] == '-') {
        return None;
    }
    assert(ws@[1]@ =~= seq!['-']);
    let idx = hyphen_sep(text);
    if idx >= text.len() {
        return None;
    }
    let head = slice(text, 0, idx);
    assert(head@ =~= text@.take(idx as int));
    let from_text = trim_vec(&head);
    let t0 = slice(text, idx, text.len());
    assert(t0@ =~= text@.skip(idx as int));
    let t1 = strip_ws_dash(&t0);
    let to0 = trim_vec(&t1);
    let to_text = if to0.len() > 0 && to0[0] == '=' && find_char(&to0, '-') < to0.len() {
        let t = slice(&to0, 1, to0.len());
        assert(t@ =~= to0@.skip(1));
        t
    } else {
        to0
    };
    let f = match parse_partial(&from_text, o.loose) {
        None => {
            return None;
        },
        Some(f) => f,
    };
    let t = match parse_partial(&to_text, o.loose) {
        None => {
            return None;
        },
        Some(t) => t,
    };
    let mut out: Vec<char> = Vec::new();
    push_hyphen_lower(&mut out, &f, o);
    out.push(' ');
    push_hyphen_upper(&mut out, &t, o);
    assert(out@ =~= hyphen_lower(f@, o) + seq![' '] + hyphen_upper(t@, o));
    Some(trim_vec(&out))
}

// ── gluing operators to their versions ──────────────────────────────────
/// ASCII whitespace as a byte.
pub open spec fn ws_byte(b: u8) -> bool {
    b == 32 || b == 9 || b == 10 || b == 12 || b == 13
}

/// A byte that can start a version: a digit, `x`, `X`, `*` or `v`.
pub open spec fn version_start(b: u8) -> bool {
    (48 <= b <= 57) || b == 120 || b == 88 || b == 42 || b == 118
}

/// The end of the run of ASCII whitespace from `j`.
pub open spec fn ws_run_end(b: Seq<u8>, j: int) -> int
    decreases b.len() - j,
{
    if 0 <= j < b.len() && ws_byte(b[j]) {
        ws_run_end(b, j + 1)
    } else {
        j
    }
}

pub proof fn lemma_ws_run_end(b: Seq<u8>, j: int)
    ensures
        ws_run_end(b, j) >= j,
        0 <= j <= b.len() ==> ws_run_end(b, j) <= b.len(),
    decreases b.len() - j,
{
    if 0 <= j < b.len() && ws_byte(b[j]) {
        lemma_ws_run_end(b, j + 1);
    }
}

/// Whether the byte at `i` ends an operator: `~`, `^`, a `>`/`<` not
/// followed by `=`, or a `=` after `>`, `<` or `=`.
pub open spec fn op_end(b: Seq<u8>, i: int) -> bool {
    let c = b[i];
    c == 126 || c == 94 || ((c == 62 || c == 60) && !(i + 1 < b.len() && b[i + 1] == 61)) || (c
        == 61 && i >= 1 && (b[i - 1] == 62 || b[i - 1] == 60 || b[i - 1] == 61))
}

/// Where reading continues after byte `i`: past the whitespace that
/// separates an operator from a following version, else the next byte.
pub open spec fn glue_next(b: Seq<u8>, i: int) -> int {
    let j = ws_run_end(b, i + 1);
    if op_end(b, i) && j < b.len() && version_start(b[j]) {
        j
    } else {
        i + 1
    }
}

/// The glued text from byte `i`: each kept byte becomes the character
/// with that code.
pub open spec fn glue_from(b: Seq<u8>, i: int) -> Seq<char>
    decreases b.len() - i,
{
    if i < 0 || i >= b.len() {
        Seq::empty()
    } else {
        proof {
            lemma_ws_run_end(b, i + 1);
        }
        seq![b[i] as char] + glue_from(b, glue_next(b, i))
    }
}

/// `> 1.2.3` becomes `>1.2.3`, `~ 1.2` becomes `~1.2`, `^ 1` becomes `^1`:
/// whitespace between an operator and a version is removed. The text is
/// read byte by byte, each byte kept becoming the character of that code.
pub open spec fn glue(t: Seq<char>) -> Seq<char> {
    glue_from(encode_utf8(t), 0)
}

/// Glue operators to the versions that follow them.
pub fn glue_operators(text: &Vec<char>) -> (r: Vec<char>)
    ensures
        r@ == glue(text@),
{
    let s = string_of(text);
    let bytes = s.as_str().as_bytes();
    let ghost b = bytes@;
    assert(b == encode_utf8(text@));
    let n = bytes.len();
    let mut out: Vec<char> = Vec::new();
    let mut i: usize = 0;
    while i < n
        invariant
            n == b.len(),
            bytes@ == b,
            i <= n,
            out@ + glue_from(b, i as int) == glue_from(b, 0),
        decreases n - i,
    {
        let c = bytes[i];
        let ghost before = out@;
        out.push(c as char);
        let is_op_end = c == 126 || c == 94 || ((c == 62 || c == 60) && !(i + 1 < n && bytes[i + 1]
            == 61)) || (c == 61 && i >= 1 && (bytes[i - 1] == 62 || bytes[i - 1] == 60 || bytes[i
            - 1] == 61));
        let mut j = i + 1;
        while j < n && (bytes[j] == 32 || bytes[j] == 9 || bytes[j] == 10 || bytes[j] == 12
            || bytes[j] == 13)
            invariant
                n == b.len(),
                bytes@ == b,
                i + 1 <= j <= n,
                ws_run_end(b, j as int) == ws_run_end(b, i + 1),
            decreases n - j,
        {
            j = j + 1;
        }
        proof {
            lemma_ws_run_end(b, i + 1);
        }
        let next = if is_op_end && j < n && ((48 <= bytes[j] && bytes[j] <= 57) || bytes[j] == 120
            || bytes[j] == 88 || bytes[j] == 42 || bytes[j] == 118) {
            j
        } else {
            i + 1
        };
        assert(next == glue_next(b, i as int));
        assert(before + glue_from(b, i as int) =~= before.push(b[i as int] as char) + glue_from(
            b,
            next as int,
        ));
        i = next;
    }
    assert(glue_from(b, n as int) =~= Seq::<char>::empty());
    assert(out@ =~= out@ + glue_from(b, n as int));
    out
}

} // verus!
