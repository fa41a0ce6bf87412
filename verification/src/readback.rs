//! The runs text `simplify_range` proposes reads back as the runs it
//! came from: over releases written in canonical form, it admits the
//! same versions of the list as the range it replaces, so there the
//! proposal is always kept.
use crate::canonical::{lemma_num_text, lemma_render_reparses, strict_ids};
use crate::comparator::{
    any_view, comp_parse, comp_test, comp_text, is_null_view, op_text, split_op, CompView, Op,
};
use crate::constants::{Options, MAX_SAFE_INTEGER};
use crate::desugar::{
    bars, bars_from, caret_text, component, find, find_from, glue, glue_from, glue_next,
    hyphen_lower, hyphen_sep_from, hyphen_text, hyphen_upper, letter_after_digit_from, op_end,
    partial_body, partial_of, piece, split_head, tilde_text, words, words_from, ws_byte,
    ws_dash_lead, ws_run_end, xrange_text, xsplit, PartialView,
};
use crate::functions::{
    agrees_on, at_indices, covers, lemma_pos_runs_bounds, lemma_runs_at_positions, lemma_runs_cover,
    lemma_simplify_nothing, pos_runs, run_at, run_text, runs_of, runs_text, simplified,
    simplify_result, stably_sorted,
};
use crate::identifiers::{ident_text, IdentView};
use crate::range::{
    absorb, absorb_from, absorb_words, alt_step, alts_from, comparator_set, desugar,
    first_null_from, glued_set, has_specific, is_any_set, join_with, mark_trail, part_item,
    range_parse, range_test, seen_text, set_test, strip_build, strip_mark, tidy, token_items,
    zero_floor, Item, RangeAcc, SetErr,
};
use crate::witness::{lemma_zero_pre_lowest, zero_pre_version, zero_version};
use crate::semver::{
    eqv_lead, lemma_ver_order_antisym, main_text, parsed, render, too_long, ver_order,
    well_formed, VersionView,
};
use crate::text::{
    is_alpha, is_ascii_ws, is_digit, is_ws, lemma_ws_lead, lemma_ws_trail, num_text, split_on,
    trim, ws_lead, ws_trail,
};
use vstd::prelude::*;
use vstd::utf8::{encode_utf8, is_ascii_chars, is_ascii_chars_encode_utf8};

verus! {

// ── text facts ──────────────────────────────────────────────────────────
/// A character that ends or is part of an operator.
pub open spec fn op_char(c: char) -> bool {
    c == '~' || c == '^' || c == '>' || c == '<' || c == '='
}

/// An ASCII text in which no operator character is followed directly by
/// whitespace, which gluing leaves as it is.
pub open spec fn glue_safe(t: Seq<char>) -> bool {
    &&& is_ascii_chars(t)
    &&& forall|k: int| 0 <= k < t.len() - 1 && op_char(#[trigger] t[k]) ==> !is_ascii_ws(t[k + 1])
}

#[verifier::spinoff_prover]
proof fn lemma_glue_from_safe(t: Seq<char>, i: int)
    requires
        glue_safe(t),
        0 <= i <= t.len(),
    ensures
        glue_from(encode_utf8(t), i) == t.skip(i),
    decreases t.len() - i,
{
    let b = encode_utf8(t);
    is_ascii_chars_encode_utf8(t);
    if i < t.len() {
        assert(b[i] == t[i] as u8);
        assert((t[i] as u8) as char == t[i]);
        if i + 1 < t.len() {
            assert(b[i + 1] == t[i + 1] as u8);
        }
        if op_end(b, i) && i + 1 < t.len() {
            assert(op_char(t[i]));
            assert(!is_ascii_ws(t[i + 1]));
            assert(!ws_byte(b[i + 1]));
        }
        assert(ws_run_end(b, i + 1) == i + 1 || !(op_end(b, i) && i + 1 < t.len()));
        assert(glue_next(b, i) == i + 1);
        lemma_glue_from_safe(t, i + 1);
        assert(t.skip(i) =~= seq![t[i]] + t.skip(i + 1));
    } else {
        assert(t.skip(i) =~= Seq::<char>::empty());
    }
}

/// Gluing leaves a glue-safe text as it is.
#[verifier::spinoff_prover]
pub proof fn lemma_glue_safe(t: Seq<char>)
    requires
        glue_safe(t),
    ensures
        glue(t) == t,
{
    lemma_glue_from_safe(t, 0);
    assert(t.skip(0) =~= t);
}

/// A text that neither starts nor ends with whitespace, with at most one
/// space added at either end, trims to itself.
#[verifier::spinoff_prover]
pub proof fn lemma_trim_padded(s: Seq<char>, l: Seq<char>, r: Seq<char>)
    requires
        s.len() > 0,
        !is_ws(s[0]),
        !is_ws(s.last()),
        l == Seq::<char>::empty() || l == seq![' '],
        r == Seq::<char>::empty() || r == seq![' '],
    ensures
        trim(l + s + r) == s,
{
    let t = l + s + r;
    assert forall|k: int| 0 <= k < l.len() implies #[trigger] is_ws(t[k]) by {
        assert(t[k] == ' ');
    }
    lemma_ws_lead(t, l.len() as int);
    let u = t.skip(l.len() as int);
    assert(u =~= s + r);
    assert(u[0] == s[0]);
    assert(ws_lead(u) == 0);
    assert(ws_lead(t) == l.len());
    assert forall|k: int| u.len() - r.len() <= k < u.len() implies #[trigger] is_ws(u[k]) by {
        assert(u[k] == ' ');
    }
    lemma_ws_trail(u, r.len() as int);
    let w = u.take(u.len() - r.len());
    assert(w =~= s);
    assert(w.last() == s.last());
    assert(ws_trail(w) == 0);
}

/// Words read from `i` up to `j`, with no whitespace between, join the
/// word in progress.
#[verifier::spinoff_prover]
proof fn lemma_words_run(t: Seq<char>, i: int, j: int, cur: Seq<char>)
    requires
        0 <= i <= j <= t.len(),
        forall|k: int| i <= k < j ==> !is_ws(#[trigger] t[k]),
    ensures
        words_from(t, i, cur) == words_from(t, j, cur + t.subrange(i, j)),
    decreases j - i,
{
    if i < j {
        lemma_words_run(t, i + 1, j, cur.push(t[i]));
        assert(cur.push(t[i]) + t.subrange(i + 1, j) =~= cur + t.subrange(i, j));
    } else {
        assert(cur + t.subrange(i, j) =~= cur);
    }
}

/// A text without whitespace is one word.
#[verifier::spinoff_prover]
pub proof fn lemma_words_one(a: Seq<char>)
    requires
        a.len() > 0,
        forall|k: int| 0 <= k < a.len() ==> !is_ws(#[trigger] a[k]),
    ensures
        words(a) == seq![a],
{
    lemma_words_run(a, 0, a.len() as int, Seq::empty());
    assert(Seq::<char>::empty() + a.subrange(0, a.len() as int) =~= a);
}

/// Two texts without whitespace, joined by a space, are two words.
#[verifier::spinoff_prover]
pub proof fn lemma_words_two(a: Seq<char>, b: Seq<char>)
    requires
        a.len() > 0,
        b.len() > 0,
        forall|k: int| 0 <= k < a.len() ==> !is_ws(#[trigger] a[k]),
        forall|k: int| 0 <= k < b.len() ==> !is_ws(#[trigger] b[k]),
    ensures
        words(a + seq![' '] + b) == seq![a, b],
{
    let t = a + seq![' '] + b;
    assert forall|k: int| 0 <= k < a.len() implies !is_ws(#[trigger] t[k]) by {
        assert(t[k] == a[k]);
    }
    lemma_words_run(t, 0, a.len() as int, Seq::empty());
    assert(Seq::<char>::empty() + t.subrange(0, a.len() as int) =~= a);
    assert(is_ws(t[a.len() as int]));
    assert forall|k: int| a.len() + 1 <= k < t.len() implies !is_ws(#[trigger] t[k]) by {
        assert(t[k] == b[k - a.len() - 1]);
    }
    lemma_words_run(t, a.len() as int + 1, t.len() as int, Seq::empty());
    assert(Seq::<char>::empty() + t.subrange(a.len() as int + 1, t.len() as int) =~= b);
    assert(words_from(t, t.len() as int, b) == seq![b]);
    assert(words(t) == seq![a] + seq![b]);
    assert(seq![a] + seq![b] =~= seq![a, b]);
}

// ── canonical release texts ─────────────────────────────────────────────
/// Digits and dots, starting and ending with a digit: how a release
/// without a prerelease is written.
pub open spec fn plain_text(s: Seq<char>) -> bool {
    &&& s.len() > 0
    &&& is_digit(s[0])
    &&& is_digit(s.last())
    &&& forall|k: int| 0 <= k < s.len() ==> is_digit(#[trigger] s[k]) || s[k] == '.'
}

#[verifier::spinoff_prover]
proof fn lemma_num_text_digits(n: nat)
    ensures
        num_text(n).len() > 0,
        forall|k: int| 0 <= k < num_text(n).len() ==> is_digit(#[trigger] num_text(n)[k]),
{
    lemma_num_text(n);
}

/// `major.minor.patch` is a plain text.
#[verifier::spinoff_prover]
pub proof fn lemma_main_text_plain(a: u64, b: u64, c: u64)
    ensures
        plain_text(main_text(a, b, c)),
{
    lemma_num_text_digits(a as nat);
    lemma_num_text_digits(b as nat);
    lemma_num_text_digits(c as nat);
    let na = num_text(a as nat);
    let nb = num_text(b as nat);
    let nc = num_text(c as nat);
    let t = main_text(a, b, c);
    assert(t =~= na + seq!['.'] + nb + seq!['.'] + nc);
    assert forall|k: int| 0 <= k < t.len() implies is_digit(#[trigger] t[k]) || t[k] == '.' by {
        if k < na.len() {
            assert(t[k] == na[k]);
        } else if k == na.len() {
        } else if k < na.len() + 1 + nb.len() {
            assert(t[k] == nb[k - na.len() - 1]);
        } else if k == na.len() + 1 + nb.len() {
        } else {
            assert(t[k] == nc[k - na.len() - 2 - nb.len()]);
        }
    }
    assert(t[0] == na[0]);
    assert(t.last() == nc.last());
}

/// No character of a plain text is whitespace, a letter, an operator
/// character, `-`, `+` or `|`, and it is ASCII.
#[verifier::spinoff_prover]
pub proof fn lemma_plain_chars(s: Seq<char>)
    requires
        plain_text(s),
    ensures
        is_ascii_chars(s),
        forall|k: int|
            0 <= k < s.len() ==> !is_ws(#[trigger] s[k]) && !is_alpha(s[k]) && !op_char(s[k])
                && s[k] != '-' && s[k] != '+' && s[k] != '|' && s[k] != '*' && !is_ascii_ws(s[k]),
{
    assert forall|k: int| 0 <= k < s.len() implies '\0' <= #[trigger] s[k] <= '\u{7f}' by {
        lemma_ascii_char(s[k]);
    }
    assert forall|k: int| 0 <= k < s.len() implies !is_ws(#[trigger] s[k]) && !is_alpha(s[k])
        && !op_char(s[k]) && s[k] != '-' && s[k] != '+' && s[k] != '|' && s[k] != '*'
        && !is_ascii_ws(s[k]) by {
        assert(is_digit(s[k]) || s[k] == '.');
    }
}

#[verifier::spinoff_prover]
proof fn lemma_ascii_char(c: char)
    requires
        is_digit(c) || c == '.',
    ensures
        '\0' <= c <= '\u{7f}',
{
    if c == '.' {
    } else {
        assert(48 <= (c as u32) <= 57);
        assert((c as u32) <= 127 ==> c <= '\u{7f}');
    }
}

/// Without `c`, the text is one piece.
#[verifier::spinoff_prover]
proof fn lemma_split_on_none(s: Seq<char>, c: char)
    requires
        forall|k: int| 0 <= k < s.len() ==> #[trigger] s[k] != c,
    ensures
        split_on(s, c) == seq![s],
    decreases s.len(),
{
    if s.len() > 0 {
        let init = s.drop_last();
        assert forall|k: int| 0 <= k < init.len() implies #[trigger] init[k] != c by {
            assert(init[k] == s[k]);
        }
        lemma_split_on_none(init, c);
        assert(s.last() != c);
        assert(init.push(s.last()) =~= s);
        assert(seq![init].update(0, init.push(s.last())) =~= seq![s]);
    } else {
        assert(split_on(s, c) == seq![Seq::<char>::empty()]);
        assert(s =~= Seq::<char>::empty());
    }
}

/// Splitting `x`, then `c`, then `y` gives the pieces of `x` then those
/// of `y`.
#[verifier::spinoff_prover]
proof fn lemma_split_on_concat(x: Seq<char>, c: char, y: Seq<char>)
    ensures
        split_on(x.push(c) + y, c) == split_on(x, c) + split_on(y, c),
    decreases y.len(),
{
    crate::text::lemma_split_on_len(x, c);
    crate::text::lemma_split_on_len(y, c);
    if y.len() == 0 {
        assert(x.push(c) + y =~= x.push(c));
        assert(x.push(c).drop_last() =~= x);
        assert(split_on(x, c).push(Seq::empty()) =~= split_on(x, c) + seq![Seq::<char>::empty()]);
    } else {
        let t = x.push(c) + y;
        let y0 = y.drop_last();
        assert(t.drop_last() =~= x.push(c) + y0);
        assert(t.last() == y.last());
        lemma_split_on_concat(x, c, y0);
        crate::text::lemma_split_on_len(y0, c);
        let sx = split_on(x, c);
        let sy0 = split_on(y0, c);
        if y.last() == c {
            assert((sx + sy0).push(Seq::empty()) =~= sx + sy0.push(Seq::empty()));
        } else {
            assert((sx + sy0).update((sx + sy0).len() - 1, (sx + sy0).last().push(y.last())) =~= sx
                + sy0.update(sy0.len() - 1, sy0.last().push(y.last())));
        }
    }
}

#[verifier::spinoff_prover]
proof fn lemma_find_none(s: Seq<char>, c: char, i: int)
    requires
        0 <= i <= s.len(),
        forall|k: int| i <= k < s.len() ==> #[trigger] s[k] != c,
    ensures
        find_from(s, c, i) == s.len(),
    decreases s.len() - i,
{
    if i < s.len() {
        lemma_find_none(s, c, i + 1);
    }
}

#[verifier::spinoff_prover]
proof fn lemma_no_letter(t: Seq<char>, i: int)
    requires
        0 <= i,
        forall|k: int| 0 <= k < t.len() ==> !is_alpha(#[trigger] t[k]),
    ensures
        letter_after_digit_from(t, i) == t.len(),
    decreases t.len() - i,
{
    if i < t.len() {
        lemma_no_letter(t, i + 1);
    }
}

#[verifier::spinoff_prover]
proof fn lemma_component_num(n: u64, loose: bool)
    requires
        n <= MAX_SAFE_INTEGER,
    ensures
        component(Some(num_text(n as nat)), loose) == Some(Some(n)),
{
    lemma_num_text(n as nat);
    let t = num_text(n as nat);
    assert(t[0] != 'x' && t[0] != 'X' && t[0] != '*') by {
        assert(is_digit(t[0]));
    }
    assert(!(t == seq!['x']) && !(t == seq!['X']) && !(t == seq!['*'])) by {
        if t == seq!['x'] || t == seq!['X'] || t == seq!['*'] {
            assert(t[0] == 'x' || t[0] == 'X' || t[0] == '*');
        }
    }
}

/// `a.b.c` reads as a partial version with every component and no
/// prerelease.
#[verifier::spinoff_prover]
pub proof fn lemma_partial_full(a: u64, b: u64, c: u64, loose: bool)
    requires
        a <= MAX_SAFE_INTEGER,
        b <= MAX_SAFE_INTEGER,
        c <= MAX_SAFE_INTEGER,
    ensures
        partial_of(main_text(a, b, c), loose) == Some(
            PartialView { major: Some(a), minor: Some(b), patch: Some(c), pre: None },
        ),
{
    let t = main_text(a, b, c);
    lemma_main_text_plain(a, b, c);
    lemma_plain_chars(t);
    lemma_trim_padded(t, Seq::empty(), Seq::empty());
    assert(Seq::<char>::empty() + t + Seq::<char>::empty() =~= t);
    assert(trim(t) == t);
    assert(eqv_lead(t) == 0);
    assert(t.skip(0) =~= t);
    assert(partial_body(t, loose) == t);
    lemma_find_none(t, '+', 0);
    assert(t.take(t.len() as int) =~= t);
    lemma_find_none(t, '-', 0);
    lemma_no_letter(t, 1);
    assert(split_head(t, loose) == Some((t, None::<Seq<char>>)));
    let na = num_text(a as nat);
    let nb = num_text(b as nat);
    let nc = num_text(c as nat);
    lemma_num_text_digits(a as nat);
    lemma_num_text_digits(b as nat);
    lemma_num_text_digits(c as nat);
    lemma_split_on_none(na, '.');
    lemma_split_on_none(nb, '.');
    lemma_split_on_none(nc, '.');
    lemma_split_on_concat(na, '.', nb);
    lemma_split_on_concat(na.push('.') + nb, '.', nc);
    assert(t =~= (na.push('.') + nb).push('.') + nc);
    let parts = split_on(t, '.');
    assert(parts =~= seq![na, nb, nc]);
    lemma_component_num(a, loose);
    lemma_component_num(b, loose);
    lemma_component_num(c, loose);
    assert(piece(parts, 0) == Some(na));
    assert(piece(parts, 1) == Some(nb));
    assert(piece(parts, 2) == Some(nc));
}

// ── one comparator written plainly ──────────────────────────────────────
/// A version written canonically without a prerelease: its text reads
/// back as itself.
pub open spec fn plain_version(x: VersionView, o: Options) -> bool {
    &&& x.pre.len() == 0
    &&& well_formed(x)
    &&& parsed(render(x), o) == Some(x)
}

/// `op` followed by a plain version's text.
pub open spec fn op_token(op: Op, x: VersionView) -> Seq<char> {
    op_text(op) + render(x)
}

/// What one such word contributes: `>=0.0.0` is `*`, anything else the
/// comparator.
pub open spec fn op_item(op: Op, x: VersionView) -> Item {
    if op_token(op, x) == zero_floor() {
        Item::Any
    } else {
        Item::Comp(CompView { op, ver: Some(x) })
    }
}

#[verifier::spinoff_prover]
proof fn lemma_op_token_chars(op: Op, x: VersionView)
    requires
        x.pre.len() == 0,
        op == Op::Gte || op == Op::Lte || op == Op::Eq,
    ensures
        ({
            let t = op_token(op, x);
            &&& t.len() > 0
            &&& !is_ws(t[0])
            &&& !is_ws(t.last())
            &&& is_digit(t.last())
            &&& t[0] != '^' && t[0] != '~' && t[0] != '*'
            &&& glue_safe(t)
            &&& forall|k: int| 0 <= k < t.len() ==> !is_ws(#[trigger] t[k]) && t[k] != '+' && t[k] != '|'
                && t[k] != '-' && t[k] != crate::desugar::keep_zero()
            &&& op_text(op).len() <= 2
            &&& t.skip(op_text(op).len() as int) == render(x)
        }),
{
    let a = render(x);
    lemma_main_text_plain(x.major, x.minor, x.patch);
    lemma_plain_chars(a);
    let p = op_text(op);
    let t = p + a;
    assert(t.skip(p.len() as int) =~= a);
    assert(t.last() == a.last());
    assert forall|k: int| 0 <= k < t.len() implies !is_ws(#[trigger] t[k]) && t[k] != '+' && t[k]
        != '|' && t[k] != '-' && t[k] != crate::desugar::keep_zero() by {
        if k >= p.len() {
            assert(t[k] == a[k - p.len()]);
            assert(is_digit(a[k - p.len()]) || a[k - p.len()] == '.');
        }
    }
    assert forall|k: int| 0 <= k < t.len() implies '\0' <= #[trigger] t[k] <= '\u{7f}' by {
        if k >= p.len() {
            assert(t[k] == a[k - p.len()]);
        }
    }
    assert forall|k: int| 0 <= k < t.len() - 1 && op_char(#[trigger] t[k]) implies !is_ascii_ws(
        t[k + 1],
    ) by {
        if k + 1 >= p.len() {
            assert(t[k + 1] == a[k + 1 - p.len()]);
        }
    }
    if p.len() == 0 {
        assert(t[0] == a[0]);
    }
}

#[verifier::spinoff_prover]
proof fn lemma_op_token_desugar(op: Op, x: VersionView, o: Options)
    requires
        plain_version(x, o),
        op == Op::Gte || op == Op::Lte || op == Op::Eq,
    ensures
        desugar(op_token(op, x), o) == op_token(op, x),
{
    let t = op_token(op, x);
    let a = render(x);
    lemma_op_token_chars(op, x);
    lemma_main_text_plain(x.major, x.minor, x.patch);
    lemma_plain_chars(a);
    lemma_trim_padded(t, Seq::empty(), Seq::empty());
    assert(Seq::<char>::empty() + t + Seq::<char>::empty() =~= t);
    lemma_trim_padded(a, Seq::empty(), Seq::empty());
    assert(Seq::<char>::empty() + a + Seq::<char>::empty() =~= a);
    assert(caret_text(t, o) is None);
    assert(tilde_text(t, o) is None);
    lemma_partial_full(x.major, x.minor, x.patch, o.loose);
    let n = op_text(op).len() as int;
    assert(t.skip(n) == a);
    if op == Op::Eq {
        assert(xsplit(t) == (None::<Op>, t));
    } else if op == Op::Gte {
        assert(xsplit(t) == (Some(Op::Gte), trim(t.skip(2))));
    } else {
        assert(xsplit(t) == (Some(Op::Lte), trim(t.skip(2))));
    }
    assert(xrange_text(t, o) is None);
}

#[verifier::spinoff_prover]
#[verifier::rlimit(60)]
proof fn lemma_op_token_parse(op: Op, x: VersionView, o: Options)
    requires
        plain_version(x, o),
        op == Op::Gte || op == Op::Lte || op == Op::Eq,
    ensures
        comp_parse(op_token(op, x), o) == Some(CompView { op, ver: Some(x) }),
{
    let t = op_token(op, x);
    let a = render(x);
    lemma_op_token_chars(op, x);
    lemma_main_text_plain(x.major, x.minor, x.patch);
    lemma_plain_chars(a);
    lemma_trim_padded(t, Seq::empty(), Seq::empty());
    assert(Seq::<char>::empty() + t + Seq::<char>::empty() =~= t);
    lemma_trim_padded(a, Seq::empty(), Seq::empty());
    assert(Seq::<char>::empty() + a + Seq::<char>::empty() =~= a);
    assert(!(t == seq!['*'])) by {
        if t == seq!['*'] {
            assert(t[0] == '*');
        }
    }
    let n = op_text(op).len() as int;
    assert(t.skip(n) == a);
    if op == Op::Eq {
        assert(split_op(t, o.loose) == (Op::Eq, 0nat));
    } else if op == Op::Gte {
        assert(split_op(t, o.loose) == (Op::Gte, 2nat));
    } else {
        assert(split_op(t, o.loose) == (Op::Lte, 2nat));
    }
    assert(!(a == seq!['*'])) by {
        if a == seq!['*'] {
            assert(a[0] == '*');
        }
    }
}

/// Such a word reads as its comparator (or `*` for `>=0.0.0`).
#[verifier::spinoff_prover]
pub proof fn lemma_op_token_items(op: Op, x: VersionView, o: Options, g: Seq<char>)
    requires
        plain_version(x, o),
        !o.include_prerelease,
        op == Op::Gte || op == Op::Lte || op == Op::Eq,
    ensures
        token_items(op_token(op, x), o, g) == seq![op_item(op, x)],
{
    let t = op_token(op, x);
    lemma_op_token_chars(op, x);
    lemma_op_token_desugar(op, x, o);
    lemma_op_token_parse(op, x, o);
    lemma_words_one(t);
    assert(!t.contains(crate::desugar::keep_zero()));
    assert(mark_trail(t) == 0);
    assert(strip_mark(t) =~= t);
    lemma_find_none(t, '+', 0);
    assert(strip_build(t) =~= t);
    assert(part_item(t, o, g) == op_item(op, x));
    assert(words(t).map_values(|p: Seq<char>| part_item(p, o, g)) =~= seq![part_item(t, o, g)]);
}

/// The comparator such a word gives.
pub open spec fn op_comp(op: Op, x: VersionView) -> CompView {
    if op_token(op, x) == zero_floor() {
        any_view()
    } else {
        CompView { op, ver: Some(x) }
    }
}

#[verifier::spinoff_prover]
proof fn lemma_one_word_set(t: Seq<char>, c: CompView, o: Options)
    requires
        t.len() > 0,
        !is_ws(t[0]),
        !is_ws(t.last()),
        glue_safe(t),
        forall|k: int| 0 <= k < t.len() ==> !is_ws(#[trigger] t[k]),
        forall|g: Seq<char>| #[trigger] token_items(t, o, g) == seq![Item::Comp(c)] || (c == any_view()
            && token_items(t, o, g) == seq![Item::Any]),
        c.op != Op::Lt,
    ensures
        comparator_set(t, o) == Ok::<Seq<CompView>, SetErr>(seq![c]),
{
    lemma_trim_padded(t, Seq::empty(), Seq::empty());
    assert(Seq::<char>::empty() + t + Seq::<char>::empty() =~= t);
    lemma_words_one(t);
    assert(hyphen_text(t, o) is None);
    lemma_glue_safe(t);
    let g = glued_set(t, o);
    assert(g == t);
    let items = token_items(t, o, g);
    let start: core::result::Result<(Seq<CompView>, bool), SetErr> = Ok((Seq::empty(), false));
    let a1 = absorb(start, items[0]);
    assert(a1 == Ok::<(Seq<CompView>, bool), SetErr>((seq![c], false))) by {
        if items == seq![Item::Any] {
            assert(Seq::<CompView>::empty().push(any_view()) =~= seq![any_view()]);
        } else {
            assert(Seq::<CompView>::empty().push(c) =~= seq![c]);
        }
    }
    assert(absorb_from(a1, items, 1) == a1);
    assert(absorb_from(start, items, 0) == a1);
    let ws = words(g);
    assert(ws == seq![t]);
    assert(absorb_words(a1, ws, 1, o, g) == a1);
    assert(absorb_words(start, ws, 0, o, g) == absorb_words(absorb_from(start, token_items(ws[0], o, g), 0), ws, 1, o, g));
    assert(absorb_words(start, ws, 0, o, g) == a1);
    let cs = seq![c];
    assert(!is_null_view(c));
    assert(first_null_from(cs, 1) == 1);
    assert(cs[0] == c);
    assert(first_null_from(cs, 0) == 1);
    assert(tidy(cs, has_specific(cs)) =~= cs) by {
        assert(cs.drop_last() =~= Seq::<CompView>::empty());
        assert(tidy(Seq::<CompView>::empty(), has_specific(cs)) == Seq::<CompView>::empty());
        assert(!seen_text(Seq::empty(), comp_text(c)));
        if c.ver is None {
            assert(!has_specific(cs)) by {
                if has_specific(cs) {
                    let k = choose|k: int| 0 <= k < cs.len() && #[trigger] cs[k].ver is Some;
                    assert(cs[k] == c);
                }
            }
        }
        assert(cs.last() == c);
        assert(Seq::<CompView>::empty().push(c) =~= cs);
    }
}

/// A set written as one plain comparator reads as that comparator.
#[verifier::spinoff_prover]
pub proof fn lemma_op_token_set(op: Op, x: VersionView, o: Options)
    requires
        plain_version(x, o),
        !o.include_prerelease,
        op == Op::Gte || op == Op::Lte || op == Op::Eq,
    ensures
        comparator_set(op_token(op, x), o) == Ok::<Seq<CompView>, SetErr>(seq![op_comp(op, x)]),
{
    let t = op_token(op, x);
    lemma_op_token_chars(op, x);
    assert forall|g: Seq<char>| #[trigger] token_items(t, o, g) == seq![Item::Comp(op_comp(op, x))] || (
    op_comp(op, x) == any_view() && token_items(t, o, g) == seq![Item::Any]) by {
        lemma_op_token_items(op, x, o, g);
    }
    lemma_one_word_set(t, op_comp(op, x), o);
}

/// `*` reads as the set that admits everything.
#[verifier::spinoff_prover]
pub proof fn lemma_star_set(o: Options)
    ensures
        comparator_set(seq!['*'], o) == Ok::<Seq<CompView>, SetErr>(seq![any_view()]),
{
    let t = seq!['*'];
    assert(is_ascii_chars(t)) by {
        assert forall|k: int| 0 <= k < t.len() implies '\0' <= #[trigger] t[k] <= '\u{7f}' by {
            assert(t[k] == '*');
        }
    }
    assert(glue_safe(t));
    assert forall|g: Seq<char>| #[trigger] token_items(t, o, g) == seq![Item::Comp(any_view())] || (
    any_view() == any_view() && token_items(t, o, g) == seq![Item::Any]) by {
        lemma_trim_padded(t, Seq::empty(), Seq::empty());
        assert(Seq::<char>::empty() + t + Seq::<char>::empty() =~= t);
        assert(caret_text(t, o) is None);
        assert(tilde_text(t, o) is None);
        assert(xsplit(t) == (None::<Op>, t));
        assert(eqv_lead(t) == 0);
        assert(t.skip(0) =~= t);
        assert(partial_body(t, o.loose) == t);
        lemma_find_none(t, '+', 0);
        assert(t.take(1) =~= t);
        lemma_find_none(t, '-', 0);
        lemma_no_letter(t, 1);
        assert(split_head(t, o.loose) == Some((t, None::<Seq<char>>)));
        lemma_split_on_none(t, '.');
        assert(crate::desugar::is_wild(t));
        assert(partial_of(t, o.loose) == Some(
            PartialView { major: None, minor: None, patch: None, pre: None },
        ));
        assert(xrange_text(t, o) == Some(t));
        assert(desugar(t, o) == t);
        lemma_words_one(t);
        assert(comp_parse(t, o) == Some(any_view()));
        assert(!t.contains(crate::desugar::keep_zero())) by {
            if t.contains(crate::desugar::keep_zero()) {
                let k = choose|k: int| 0 <= k < t.len() && t[k] == crate::desugar::keep_zero();
                assert(t[k] == '*');
            }
        }
        assert(mark_trail(t) == 0);
        assert(strip_mark(t) =~= t);
        assert(strip_build(t) =~= t);
        assert(!(t == zero_floor())) by {
            assert(t.len() != zero_floor().len());
        }
        assert(part_item(t, o, g) == Item::Comp(any_view()));
        assert(words(t).map_values(|p: Seq<char>| part_item(p, o, g)) =~= seq![part_item(t, o, g)]);
    }
    lemma_one_word_set(t, any_view(), o);
}

// ── a hyphen range of two plain versions ────────────────────────────────
/// `from - to` written with two plain versions.
pub open spec fn hyphen_token(x: VersionView, y: VersionView) -> Seq<char> {
    render(x) + seq![' ', '-', ' '] + render(y)
}

/// What such a hyphen range reads as: `>=from <=to`, where `>=0.0.0`
/// goes as `*` does.
pub open spec fn hyphen_comps(x: VersionView, y: VersionView) -> Seq<CompView> {
    if op_token(Op::Gte, x) == zero_floor() {
        seq![CompView { op: Op::Lte, ver: Some(y) }]
    } else {
        seq![CompView { op: Op::Gte, ver: Some(x) }, CompView { op: Op::Lte, ver: Some(y) }]
    }
}

#[verifier::spinoff_prover]
proof fn lemma_hyphen_sep(h: Seq<char>, i: int, idx: int)
    requires
        0 <= i <= idx,
        0 < idx,
        idx + 1 < h.len(),
        forall|k: int| 0 <= k < idx ==> #[trigger] h[k] != '-',
        h[idx] == '-',
        h[idx - 1] == ' ',
        h[idx + 1] == ' ',
    ensures
        hyphen_sep_from(h, i) == idx,
    decreases idx - i,
{
    if i < idx {
        lemma_hyphen_sep(h, i + 1, idx);
    }
}

#[verifier::spinoff_prover]
proof fn lemma_glue_safe_join(t1: Seq<char>, t2: Seq<char>)
    requires
        glue_safe(t1),
        glue_safe(t2),
        t1.len() > 0,
        !op_char(t1.last()),
    ensures
        glue_safe(t1 + seq![' '] + t2),
{
    let t = t1 + seq![' '] + t2;
    assert forall|k: int| 0 <= k < t.len() implies '\0' <= #[trigger] t[k] <= '\u{7f}' by {
        if k < t1.len() {
            assert(t[k] == t1[k]);
        } else if k == t1.len() {
        } else {
            assert(t[k] == t2[k - t1.len() - 1]);
        }
    }
    assert forall|k: int| 0 <= k < t.len() - 1 && op_char(#[trigger] t[k]) implies !is_ascii_ws(
        t[k + 1],
    ) by {
        if k < t1.len() - 1 {
            assert(t[k] == t1[k] && t[k + 1] == t1[k + 1]);
        } else if k == t1.len() - 1 {
            assert(t[k] == t1.last());
        } else if k == t1.len() {
        } else {
            assert(t[k] == t2[k - t1.len() - 1] && t[k + 1] == t2[k + 1 - t1.len() - 1]);
        }
    }
}

/// The words of `a - b`.
#[verifier::spinoff_prover]
proof fn lemma_words_hyphen(a: Seq<char>, b: Seq<char>)
    requires
        a.len() > 0,
        b.len() > 0,
        forall|k: int| 0 <= k < a.len() ==> !is_ws(#[trigger] a[k]),
        forall|k: int| 0 <= k < b.len() ==> !is_ws(#[trigger] b[k]),
    ensures
        words(a + seq![' ', '-', ' '] + b) == seq![a, seq!['-'], b],
{
    let t = a + seq![' ', '-', ' '] + b;
    let n = a.len() as int;
    assert forall|k: int| 0 <= k < n implies !is_ws(#[trigger] t[k]) by {
        assert(t[k] == a[k]);
    }
    lemma_words_run(t, 0, n, Seq::empty());
    assert(Seq::<char>::empty() + t.subrange(0, n) =~= a);
    assert(t[n] == ' ' && t[n + 1] == '-' && t[n + 2] == ' ');
    assert(words_from(t, n, a) == seq![a] + words_from(t, n + 1, Seq::empty()));
    assert(words_from(t, n + 1, Seq::empty()) == words_from(t, n + 2, seq!['-'])) by {
        assert(Seq::<char>::empty().push('-') =~= seq!['-']);
    }
    assert(words_from(t, n + 2, seq!['-']) == seq![seq!['-']] + words_from(t, n + 3, Seq::empty()));
    assert forall|k: int| n + 3 <= k < t.len() implies !is_ws(#[trigger] t[k]) by {
        assert(t[k] == b[k - n - 3]);
    }
    lemma_words_run(t, n + 3, t.len() as int, Seq::empty());
    assert(Seq::<char>::empty() + t.subrange(n + 3, t.len() as int) =~= b);
    assert(words_from(t, t.len() as int, b) == seq![b]);
    assert(seq![a] + (seq![seq!['-']] + seq![b]) =~= seq![a, seq!['-'], b]);
}

/// The hyphen form of two plain versions rewrites to `>=from <=to`.
#[verifier::spinoff_prover]
#[verifier::rlimit(60)]
proof fn lemma_hyphen_rewrite(x: VersionView, y: VersionView, o: Options)
    requires
        plain_version(x, o),
        plain_version(y, o),
        !o.include_prerelease,
    ensures
        trim(hyphen_token(x, y)) == hyphen_token(x, y),
        hyphen_text(hyphen_token(x, y), o) == Some(
            op_token(Op::Gte, x) + seq![' '] + op_token(Op::Lte, y),
        ),
{
    let a = render(x);
    let b = render(y);
    let h = hyphen_token(x, y);
    let n = a.len() as int;
    lemma_main_text_plain(x.major, x.minor, x.patch);
    lemma_main_text_plain(y.major, y.minor, y.patch);
    lemma_plain_chars(a);
    lemma_plain_chars(b);
    assert(h[0] == a[0]);
    assert(h.last() == b.last());
    lemma_trim_padded(h, Seq::empty(), Seq::empty());
    assert(Seq::<char>::empty() + h + Seq::<char>::empty() =~= h);
    lemma_words_hyphen(a, b);
    assert forall|k: int| 0 <= k < n + 1 implies #[trigger] h[k] != '-' by {
        if k < n {
            assert(h[k] == a[k]);
        }
    }
    lemma_hyphen_sep(h, 0, n + 1);
    assert(h.take(n + 1) =~= a + seq![' ']);
    lemma_trim_padded(a, Seq::empty(), seq![' ']);
    assert(Seq::<char>::empty() + a + seq![' '] =~= a + seq![' ']);
    let t0 = h.skip(n + 1);
    assert(t0 =~= seq!['-', ' '] + b);
    assert(t0.drop_first() =~= seq![' '] + b);
    assert((seq![' '] + b).drop_first() =~= b);
    assert(!is_ws(b[0]) && b[0] != '-');
    assert(ws_dash_lead(b) == 0);
    assert(ws_dash_lead(seq![' '] + b) == 1);
    assert(ws_dash_lead(t0) == 2);
    assert(t0.skip(2) =~= b);
    lemma_trim_padded(b, Seq::empty(), Seq::empty());
    assert(Seq::<char>::empty() + b + Seq::<char>::empty() =~= b);
    assert(b[0] != '=');
    lemma_partial_full(x.major, x.minor, x.patch, o.loose);
    lemma_partial_full(y.major, y.minor, y.patch, o.loose);
    let t1 = op_token(Op::Gte, x);
    let t2 = op_token(Op::Lte, y);
    assert(hyphen_lower(
        PartialView { major: Some(x.major), minor: Some(x.minor), patch: Some(x.patch), pre: None },
        o,
    ) =~= t1);
    assert(hyphen_upper(
        PartialView { major: Some(y.major), minor: Some(y.minor), patch: Some(y.patch), pre: None },
        o,
    ) =~= t2);
    lemma_op_token_chars(Op::Gte, x);
    lemma_op_token_chars(Op::Lte, y);
    let g0 = t1 + seq![' '] + t2;
    assert(g0[0] == t1[0]);
    assert(g0.last() == t2.last());
    lemma_trim_padded(g0, Seq::empty(), Seq::empty());
    assert(Seq::<char>::empty() + g0 + Seq::<char>::empty() =~= g0);
}

/// A hyphen range of two plain versions reads as `>=from <=to`.
#[verifier::spinoff_prover]
#[verifier::rlimit(60)]
pub proof fn lemma_hyphen_set(x: VersionView, y: VersionView, o: Options)
    requires
        plain_version(x, o),
        plain_version(y, o),
        !o.include_prerelease,
    ensures
        comparator_set(hyphen_token(x, y), o) == Ok::<Seq<CompView>, SetErr>(hyphen_comps(x, y)),
{
    let h = hyphen_token(x, y);
    let t1 = op_token(Op::Gte, x);
    let t2 = op_token(Op::Lte, y);
    let g0 = t1 + seq![' '] + t2;
    lemma_hyphen_rewrite(x, y, o);
    lemma_op_token_chars(Op::Gte, x);
    lemma_op_token_chars(Op::Lte, y);
    // Glued, it stays as it is and splits into the two comparators.
    assert(!op_char(t1.last()));
    lemma_glue_safe_join(t1, t2);
    lemma_glue_safe(g0);
    let g = glued_set(h, o);
    assert(g == g0);
    lemma_words_two(t1, t2);
    lemma_op_token_items(Op::Gte, x, o, g);
    lemma_op_token_items(Op::Lte, y, o, g);
    assert(!(t2 == zero_floor())) by {
        assert(t2[0] == '<');
    }
    let c1 = op_comp(Op::Gte, x);
    let c2 = CompView { op: Op::Lte, ver: Some(y) };
    let start: core::result::Result<(Seq<CompView>, bool), SetErr> = Ok((Seq::empty(), false));
    let ws = words(g);
    let i1 = token_items(t1, o, g);
    let i2 = token_items(t2, o, g);
    let a1 = absorb(start, i1[0]);
    assert(a1 == Ok::<(Seq<CompView>, bool), SetErr>((seq![c1], false))) by {
        assert(Seq::<CompView>::empty().push(c1) =~= seq![c1]);
    }
    assert(absorb_from(a1, i1, 1) == a1);
    assert(absorb_from(start, i1, 0) == a1);
    let a2 = absorb(a1, i2[0]);
    assert(a2 == Ok::<(Seq<CompView>, bool), SetErr>((seq![c1, c2], false))) by {
        assert(seq![c1].push(c2) =~= seq![c1, c2]);
    }
    assert(absorb_from(a2, i2, 1) == a2);
    assert(absorb_from(a1, i2, 0) == a2);
    assert(absorb_words(a2, ws, 2, o, g) == a2);
    assert(absorb_words(a1, ws, 1, o, g) == a2);
    assert(absorb_words(start, ws, 0, o, g) == a2);
    let cs = seq![c1, c2];
    assert(!is_null_view(c1) && !is_null_view(c2));
    assert(first_null_from(cs, 2) == 2);
    assert(first_null_from(cs, 1) == 2);
    assert(first_null_from(cs, 0) == 2);
    assert(has_specific(cs)) by {
        assert(cs[1].ver is Some);
    }
    lemma_tidy_hyphen(x, y);
}

#[verifier::spinoff_prover]
proof fn lemma_tidy_hyphen(x: VersionView, y: VersionView)
    ensures
        tidy(seq![op_comp(Op::Gte, x), CompView { op: Op::Lte, ver: Some(y) }], true) == hyphen_comps(
            x,
            y,
        ),
{
    let c1 = op_comp(Op::Gte, x);
    let c2 = CompView { op: Op::Lte, ver: Some(y) };
    let cs = seq![c1, c2];
    let one = seq![c1];
    assert(cs.drop_last() =~= one);
    assert(cs.last() == c2);
    assert(one.drop_last() =~= Seq::<CompView>::empty());
    assert(one.last() == c1);
    assert(tidy(Seq::<CompView>::empty(), true) == Seq::<CompView>::empty());
    let d1 = tidy(one, true);
    if op_token(Op::Gte, x) == zero_floor() {
        assert(c1 == any_view());
        assert(d1 == Seq::<CompView>::empty());
        assert(!seen_text(d1, comp_text(c2)));
        assert(d1.push(c2) =~= seq![c2]);
    } else {
        assert(c1.ver is Some);
        assert(!seen_text(Seq::<CompView>::empty(), comp_text(c1)));
        assert(d1 == Seq::<CompView>::empty().push(c1));
        assert(d1 =~= one);
        assert(comp_text(c1)[0] == '>');
        assert(comp_text(c2)[0] == '<');
        assert(!seen_text(d1, comp_text(c2))) by {
            if seen_text(d1, comp_text(c2)) {
                let k = choose|k: int| 0 <= k < d1.len() && #[trigger] comp_text(d1[k]) == comp_text(c2);
                assert(d1[k] == c1);
            }
        }
        assert(d1.push(c2) =~= cs);
    }
}

// ── alternatives ────────────────────────────────────────────────────────
/// A piece of a range text: not empty, without `|`, and neither starting
/// nor ending with whitespace.
pub open spec fn piece_ok(p: Seq<char>) -> bool {
    &&& p.len() > 0
    &&& !is_ws(p[0])
    &&& !is_ws(p.last())
    &&& forall|k: int| 0 <= k < p.len() ==> #[trigger] p[k] != '|'
}

/// The pieces joined by ` || `.
pub open spec fn bar_join(ps: Seq<Seq<char>>) -> Seq<char>
    decreases ps.len(),
{
    if ps.len() <= 1 {
        if ps.len() == 1 {
            ps[0]
        } else {
            Seq::empty()
        }
    } else {
        bar_join(ps.drop_last()) + seq![' ', '|', '|', ' '] + ps.last()
    }
}

#[verifier::spinoff_prover]
proof fn lemma_bars_shift(s: Seq<char>, i: int, cur: Seq<char>)
    requires
        0 <= i <= s.len(),
    ensures
        bars_from(s, i, cur) == bars_from(s.skip(i), 0, cur),
    decreases s.len() - i,
{
    let t = s.skip(i);
    if i < s.len() {
        assert(t[0] == s[i]);
        if s[i] == '|' && i + 1 < s.len() && s[i + 1] == '|' {
            assert(t[1] == s[i + 1]);
            lemma_bars_shift(s, i + 2, Seq::empty());
            lemma_bars_shift(t, 2, Seq::empty());
            assert(t.skip(2) =~= s.skip(i + 2));
        } else {
            lemma_bars_shift(s, i + 1, cur.push(s[i]));
            lemma_bars_shift(t, 1, cur.push(s[i]));
            assert(t.skip(1) =~= s.skip(i + 1));
        }
    }
}

#[verifier::spinoff_prover]
proof fn lemma_bars_none(s: Seq<char>, i: int, cur: Seq<char>)
    requires
        0 <= i <= s.len(),
        forall|k: int| i <= k < s.len() ==> #[trigger] s[k] != '|',
    ensures
        bars_from(s, i, cur) == seq![cur + s.skip(i)],
    decreases s.len() - i,
{
    if i < s.len() {
        lemma_bars_none(s, i + 1, cur.push(s[i]));
        assert(cur.push(s[i]) + s.skip(i + 1) =~= cur + s.skip(i));
    } else {
        assert(cur + s.skip(i) =~= cur);
    }
}

/// Splitting `x || y`, where `x` does not end with `|`, gives the
/// pieces of `x` then those of `y`.
#[verifier::spinoff_prover]
proof fn lemma_bars_concat(x: Seq<char>, y: Seq<char>, i: int, cur: Seq<char>)
    requires
        0 <= i <= x.len(),
        x.len() > 0,
        x.last() != '|',
    ensures
        bars_from(x + seq!['|', '|'] + y, i, cur) == bars_from(x, i, cur) + bars(y),
    decreases x.len() - i,
{
    let s = x + seq!['|', '|'] + y;
    if i < x.len() {
        assert(s[i] == x[i]);
        if i + 1 < x.len() {
            assert(s[i + 1] == x[i + 1]);
        } else {
            assert(x[i] != '|');
        }
        if x[i] == '|' && i + 1 < x.len() && x[i + 1] == '|' {
            lemma_bars_concat(x, y, i + 2, Seq::empty());
            assert(seq![cur] + (bars_from(x, i + 2, Seq::empty()) + bars(y)) =~= seq![cur]
                + bars_from(x, i + 2, Seq::empty()) + bars(y));
        } else {
            lemma_bars_concat(x, y, i + 1, cur.push(x[i]));
        }
    } else {
        assert(s[i] == '|' && s[i + 1] == '|');
        lemma_bars_shift(s, i + 2, Seq::empty());
        assert(s.skip(i + 2) =~= y);
    }
}

/// The alternatives of the joined pieces, with `trail` after the last.
pub open spec fn padded_alts(ps: Seq<Seq<char>>, trail: Seq<char>) -> Seq<Seq<char>> {
    Seq::new(
        ps.len(),
        |k: int|
            (if k > 0 {
                seq![' ']
            } else {
                Seq::empty()
            }) + ps[k] + (if k < ps.len() - 1 {
                seq![' ']
            } else {
                trail
            }),
    )
}

#[verifier::spinoff_prover]
proof fn lemma_bars_join(ps: Seq<Seq<char>>, trail: Seq<char>)
    requires
        ps.len() > 0,
        forall|k: int| 0 <= k < ps.len() ==> piece_ok(#[trigger] ps[k]),
        trail == Seq::<char>::empty() || trail == seq![' '],
    ensures
        bars(bar_join(ps) + trail) == padded_alts(ps, trail),
    decreases ps.len(),
{
    if ps.len() == 1 {
        let s = ps[0] + trail;
        assert(bar_join(ps) == ps[0]);
        assert forall|k: int| 0 <= k < s.len() implies #[trigger] s[k] != '|' by {
            if k < ps[0].len() {
                assert(s[k] == ps[0][k]);
            }
        }
        lemma_bars_none(s, 0, Seq::empty());
        assert(Seq::<char>::empty() + s.skip(0) =~= s);
        assert(padded_alts(ps, trail) =~= seq![Seq::<char>::empty() + ps[0] + trail]);
        assert(Seq::<char>::empty() + ps[0] + trail =~= s);
    } else {
        let init = ps.drop_last();
        let last = ps.last();
        assert forall|k: int| 0 <= k < init.len() implies piece_ok(#[trigger] init[k]) by {
            assert(init[k] == ps[k]);
        }
        lemma_bars_join(init, seq![' ']);
        let x = bar_join(init) + seq![' '];
        let y = seq![' '] + last + trail;
        assert(bar_join(ps) + trail =~= x + seq!['|', '|'] + y);
        lemma_bars_concat(x, y, 0, Seq::empty());
        assert forall|k: int| 0 <= k < y.len() implies #[trigger] y[k] != '|' by {
            if 1 <= k < 1 + last.len() {
                assert(y[k] == last[k - 1]);
            }
        }
        lemma_bars_none(y, 0, Seq::empty());
        assert(Seq::<char>::empty() + y.skip(0) =~= y);
        assert(padded_alts(init, seq![' ']) + seq![y] =~= padded_alts(ps, trail));
    }
}

/// Each alternative of the joined pieces trims to its piece.
#[verifier::spinoff_prover]
pub proof fn lemma_bars_pieces(ps: Seq<Seq<char>>)
    requires
        ps.len() > 0,
        forall|k: int| 0 <= k < ps.len() ==> piece_ok(#[trigger] ps[k]),
    ensures
        bars(bar_join(ps)).len() == ps.len(),
        forall|k: int| 0 <= k < ps.len() ==> trim(#[trigger] bars(bar_join(ps))[k]) == ps[k],
{
    lemma_bars_join(ps, Seq::empty());
    assert(bar_join(ps) + Seq::<char>::empty() =~= bar_join(ps));
    let alts = padded_alts(ps, Seq::empty());
    assert forall|k: int| 0 <= k < ps.len() implies trim(#[trigger] bars(bar_join(ps))[k]) == ps[k] by {
        let l = if k > 0 {
            seq![' ']
        } else {
            Seq::<char>::empty()
        };
        let r = if k < ps.len() - 1 {
            seq![' ']
        } else {
            Seq::<char>::empty()
        };
        assert(piece_ok(ps[k]));
        lemma_trim_padded(ps[k], l, r);
        assert(alts[k] == l + ps[k] + r);
    }
}

/// A set that a comparator set reads as: some comparator, and not only
/// `<0.0.0-0`.
pub open spec fn usable_set(r: core::result::Result<Seq<CompView>, SetErr>) -> bool {
    r matches Ok(cs) && cs.len() > 0 && !(cs.len() == 1 && is_null_view(cs[0]))
}

/// Some set admits `v`.
pub open spec fn some_admits(sets: Seq<Seq<CompView>>, v: VersionView, o: Options) -> bool {
    exists|m: int| 0 <= m < sets.len() && set_test(#[trigger] sets[m], v, o)
}

/// Some alternative before `i` admits `v`.
pub open spec fn some_alt_admits(alts: Seq<Seq<char>>, i: int, v: VersionView, o: Options) -> bool {
    exists|k: int| 0 <= k < i && set_test(#[trigger] comparator_set(alts[k], o)->Ok_0, v, o)
}

#[verifier::spinoff_prover]
#[verifier::rlimit(80)]
proof fn lemma_alts(alts: Seq<Seq<char>>, i: int, a: RangeAcc, v: VersionView, o: Options)
    requires
        0 <= i <= alts.len(),
        v.pre.len() == 0,
        forall|k: int| 0 <= k < alts.len() ==> usable_set(#[trigger] comparator_set(alts[k], o)),
        a.pending is None,
        i > 0 ==> a.set.len() > 0,
        some_admits(a.set, v, o) == some_alt_admits(alts, i, v, o),
    ensures
        alts_from(Ok(a), alts, i, o) matches Ok(f) && f.pending is None && (alts.len() > 0
            ==> f.set.len() > 0) && some_admits(f.set, v, o) == some_alt_admits(
            alts,
            alts.len() as int,
            v,
            o,
        ),
    decreases alts.len() - i,
{
    if i < alts.len() {
        let cs = comparator_set(alts[i], o)->Ok_0;
        assert(usable_set(comparator_set(alts[i], o)));
        let next = alt_step(Ok(a), alts[i], o);
        let b = next->Ok_0;
        assert(next is Ok);
        if is_any_set(cs) {
            assert(set_test(cs, v, o)) by {
                assert(cs[0].ver is None);
            }
            assert(b.set == seq![cs]);
            assert(set_test(b.set[0], v, o));
            assert(some_admits(b.set, v, o));
            assert(some_alt_admits(alts, i + 1, v, o)) by {
                assert(comparator_set(alts[i], o)->Ok_0 == cs);
            }
        } else if a.set.len() == 1 && is_any_set(a.set[0]) {
            assert(b == a);
            assert(set_test(a.set[0], v, o)) by {
                assert(a.set[0][0].ver is None);
            }
            assert(some_admits(a.set, v, o));
            assert(some_alt_admits(alts, i, v, o));
            assert(some_alt_admits(alts, i + 1, v, o)) by {
                let k = choose|k: int|
                    0 <= k < i && set_test(#[trigger] comparator_set(alts[k], o)->Ok_0, v, o);
                assert(0 <= k < i + 1);
            }
        } else {
            assert(b.set == a.set.push(cs));
            assert(some_admits(b.set, v, o) == some_alt_admits(alts, i + 1, v, o)) by {
                if some_admits(b.set, v, o) {
                    let m = choose|m: int| 0 <= m < b.set.len() && set_test(#[trigger] b.set[m], v, o);
                    if m < a.set.len() {
                        assert(b.set[m] == a.set[m]);
                        assert(some_admits(a.set, v, o));
                        let k = choose|k: int|
                            0 <= k < i && set_test(#[trigger] comparator_set(alts[k], o)->Ok_0, v, o);
                        assert(0 <= k < i + 1);
                    } else {
                        assert(b.set[m] == cs);
                        assert(comparator_set(alts[i], o)->Ok_0 == cs);
                    }
                }
                if some_alt_admits(alts, i + 1, v, o) {
                    let k = choose|k: int|
                        0 <= k < i + 1 && set_test(#[trigger] comparator_set(alts[k], o)->Ok_0, v, o);
                    if k < i {
                        assert(some_alt_admits(alts, i, v, o));
                        let m = choose|m: int| 0 <= m < a.set.len() && set_test(#[trigger] a.set[m], v, o);
                        assert(b.set[m] == a.set[m]);
                    } else {
                        assert(b.set[a.set.len() as int] == cs);
                    }
                }
            }
        }
        lemma_alts(alts, i + 1, b, v, o);
    }
}

/// Texts that trim to the same text read as the same set.
#[verifier::spinoff_prover]
proof fn lemma_set_of_trimmed(t: Seq<char>, p: Seq<char>, o: Options)
    requires
        trim(t) == trim(p),
    ensures
        comparator_set(t, o) == comparator_set(p, o),
{
    assert(glued_set(t, o) == glued_set(p, o));
}

/// A range written as pieces, each a usable set, admits a release
/// exactly when one of the pieces does.
#[verifier::spinoff_prover]
pub proof fn lemma_joined_range(ps: Seq<Seq<char>>, v: VersionView, o: Options)
    requires
        ps.len() > 0,
        v.pre.len() == 0,
        forall|k: int| 0 <= k < ps.len() ==> piece_ok(#[trigger] ps[k]),
        forall|k: int| 0 <= k < ps.len() ==> usable_set(#[trigger] comparator_set(ps[k], o)),
    ensures
        range_parse(join_with(ps, seq![' ', '|', '|', ' ']), o) matches Ok(sets) && (range_test(
            sets,
            v,
            o,
        ) <==> exists|k: int|
            0 <= k < ps.len() && set_test(#[trigger] comparator_set(ps[k], o)->Ok_0, v, o)),
{
    let t = join_with(ps, seq![' ', '|', '|', ' ']);
    lemma_join_is_bar_join(ps);
    lemma_bars_pieces(ps);
    // The whole text neither starts nor ends with whitespace.
    lemma_bar_join_ends(ps);
    lemma_trim_padded(t, Seq::empty(), Seq::empty());
    assert(Seq::<char>::empty() + t + Seq::<char>::empty() =~= t);
    let alts = bars(t);
    assert forall|k: int| 0 <= k < alts.len() implies comparator_set(#[trigger] alts[k], o)
        == comparator_set(ps[k], o) by {
        assert(piece_ok(ps[k]));
        lemma_trim_padded(ps[k], Seq::empty(), Seq::empty());
        assert(Seq::<char>::empty() + ps[k] + Seq::<char>::empty() =~= ps[k]);
        lemma_set_of_trimmed(alts[k], ps[k], o);
    }
    let start = RangeAcc { set: Seq::empty(), dropped: false, pending: None };
    assert(!some_admits(start.set, v, o));
    assert(!some_alt_admits(alts, 0, v, o));
    lemma_alts(alts, 0, start, v, o);
    let f = alts_from(Ok(start), alts, 0, o)->Ok_0;
    assert(range_parse(t, o) == Ok::<Seq<Seq<CompView>>, crate::range::RangeErr>(f.set));
    assert(some_alt_admits(alts, alts.len() as int, v, o) <==> exists|k: int|
        0 <= k < ps.len() && set_test(#[trigger] comparator_set(ps[k], o)->Ok_0, v, o)) by {
        if some_alt_admits(alts, alts.len() as int, v, o) {
            let k = choose|k: int|
                0 <= k < alts.len() && set_test(#[trigger] comparator_set(alts[k], o)->Ok_0, v, o);
            assert(comparator_set(alts[k], o) == comparator_set(ps[k], o));
        }
        if exists|k: int|
            0 <= k < ps.len() && set_test(#[trigger] comparator_set(ps[k], o)->Ok_0, v, o) {
            let k = choose|k: int|
                0 <= k < ps.len() && set_test(#[trigger] comparator_set(ps[k], o)->Ok_0, v, o);
            assert(comparator_set(alts[k], o) == comparator_set(ps[k], o));
        }
    }
}

#[verifier::spinoff_prover]
proof fn lemma_join_is_bar_join(ps: Seq<Seq<char>>)
    ensures
        join_with(ps, seq![' ', '|', '|', ' ']) == bar_join(ps),
    decreases ps.len(),
{
    if ps.len() > 1 {
        lemma_join_is_bar_join(ps.drop_last());
    }
}

#[verifier::spinoff_prover]
proof fn lemma_bar_join_ends(ps: Seq<Seq<char>>)
    requires
        ps.len() > 0,
        forall|k: int| 0 <= k < ps.len() ==> piece_ok(#[trigger] ps[k]),
    ensures
        bar_join(ps).len() > 0,
        bar_join(ps)[0] == ps[0][0],
        bar_join(ps).last() == ps.last().last(),
    decreases ps.len(),
{
    assert(piece_ok(ps[0]));
    assert(piece_ok(ps.last()));
    if ps.len() > 1 {
        let init = ps.drop_last();
        assert forall|k: int| 0 <= k < init.len() implies piece_ok(#[trigger] init[k]) by {
            assert(init[k] == ps[k]);
        }
        lemma_bar_join_ends(init);
        assert(init[0] == ps[0]);
    }
}

// ── the range that nothing satisfies ────────────────────────────────────
/// `<0.0.0-0`.
pub open spec fn null_text() -> Seq<char> {
    seq!['<', '0', '.', '0', '.', '0', '-', '0']
}

#[verifier::spinoff_prover]
proof fn lemma_zero_pre_text(o: Options)
    ensures
        render(zero_pre_version()) == seq!['0', '.', '0', '.', '0', '-', '0'],
        parsed(render(zero_pre_version()), o) == Some(zero_pre_version()),
{
    let z = zero_pre_version();
    let t = render(z);
    assert(num_text(0) == seq!['0']);
    assert(ident_text(IdentView::Num(0)) == seq!['0']);
    assert(crate::semver::join_ids(z.pre) == seq!['0']);
    assert(t =~= seq!['0', '.', '0', '.', '0', '-', '0']);
    assert(strict_ids(z.pre)) by {
        assert(z.pre[0] == IdentView::Num(0));
    }
    assert(well_formed(z)) by {
        assert(crate::semver::id_well_formed(z.pre[0]));
    }
    lemma_render_reparses(z, o.loose);
    assert(VersionView { build: Seq::empty(), ..z } == z);
    assert(is_ascii_chars(t)) by {
        assert forall|k: int| 0 <= k < t.len() implies '\0' <= #[trigger] t[k] <= '\u{7f}' by {
            if t[k] == '-' {
            } else {
                lemma_ascii_char(t[k]);
            }
        }
    }
    is_ascii_chars_encode_utf8(t);
    assert(!too_long(t));
}

/// When no listed version satisfies the range (and prereleases are not
/// admitted), `simplify_range` answers `<0.0.0-0`: the range that nothing
/// satisfies, rather than an empty range (which would admit everything).
#[verifier::spinoff_prover]
pub proof fn lemma_simplify_nothing_answer(
    versions: Seq<Seq<char>>,
    ix: Seq<int>,
    range: Seq<char>,
    o: Options,
)
    requires
        stably_sorted(ix, versions, o),
        !o.include_prerelease,
        forall|k: int|
            0 <= k < versions.len() ==> !crate::satisfies_spec(#[trigger] versions[k], range, o),
    ensures
        simplify_result(versions, at_indices(versions, ix), range, o) == null_text(),
{
    lemma_simplify_nothing(versions, ix, range, o);
    assert forall|k: int| 0 <= k < versions.len() implies crate::satisfies_spec(
        #[trigger] versions[k],
        null_text(),
        o,
    ) == crate::satisfies_spec(versions[k], range, o) by {
        lemma_null_text(versions[k], o);
    }
    assert(agrees_on(versions, null_text(), range, o));
}

/// `<0.0.0-0` reads as the one comparator that nothing satisfies, so no
/// version satisfies it.
#[verifier::spinoff_prover]
#[verifier::rlimit(60)]
pub proof fn lemma_null_text(s: Seq<char>, o: Options)
    requires
        !o.include_prerelease,
    ensures
        !crate::satisfies_spec(s, null_text(), o),
{
    let n = null_text();
    let z = zero_pre_version();
    let zt = render(z);
    lemma_zero_pre_text(o);
    let c = CompView { op: Op::Lt, ver: Some(z) };
    assert(n =~= seq!['<'] + zt);
    assert(n.skip(1) =~= zt);
    assert(is_ascii_chars(n)) by {
        assert forall|k: int| 0 <= k < n.len() implies '\0' <= #[trigger] n[k] <= '\u{7f}' by {
            if n[k] == '-' || n[k] == '<' {
            } else {
                lemma_ascii_char(n[k]);
            }
        }
    }
    assert(glue_safe(n));
    assert forall|k: int| 0 <= k < n.len() implies !is_ws(#[trigger] n[k]) by {}
    lemma_trim_padded(n, Seq::empty(), Seq::empty());
    assert(Seq::<char>::empty() + n + Seq::<char>::empty() =~= n);
    lemma_trim_padded(zt, Seq::empty(), Seq::empty());
    assert(Seq::<char>::empty() + zt + Seq::<char>::empty() =~= zt);
    lemma_words_one(n);
    assert(hyphen_text(n, o) is None);
    lemma_glue_safe(n);
    let g = glued_set(n, o);
    assert(g == n);
    // The word keeps its text and reads as `<0.0.0-0`.
    assert(caret_text(n, o) is None);
    assert(tilde_text(n, o) is None);
    assert(xsplit(n) == (Some(Op::Lt), trim(n.skip(1))));
    lemma_partial_zero_pre(o.loose);
    assert(xrange_text(n, o) is None);
    assert(desugar(n, o) == n);
    assert(!(n == seq!['*'])) by {
        assert(n.len() != 1);
    }
    assert(split_op(n, o.loose) == (Op::Lt, 1nat));
    assert(!(zt == seq!['*'])) by {
        assert(zt.len() != 1);
    }
    assert(comp_parse(n, o) == Some(c));
    assert(!n.contains(crate::desugar::keep_zero()));
    assert(mark_trail(n) == 0);
    assert(strip_mark(n) =~= n);
    lemma_find_none(n, '+', 0);
    assert(strip_build(n) =~= n);
    assert(!(n == zero_floor())) by {
        assert(n[0] != zero_floor()[0]);
    }
    assert(part_item(n, o, g) == Item::Comp(c));
    assert(words(n).map_values(|p: Seq<char>| part_item(p, o, g)) =~= seq![part_item(n, o, g)]);
    let items = token_items(n, o, g);
    assert(items == seq![Item::Comp(c)]);
    let start: core::result::Result<(Seq<CompView>, bool), SetErr> = Ok((Seq::empty(), false));
    let a1 = absorb(start, items[0]);
    assert(a1 == Ok::<(Seq<CompView>, bool), SetErr>((seq![c], false))) by {
        assert(Seq::<CompView>::empty().push(c) =~= seq![c]);
    }
    assert(absorb_from(a1, items, 1) == a1);
    assert(absorb_from(start, items, 0) == a1);
    let ws = words(g);
    assert(absorb_words(a1, ws, 1, o, g) == a1);
    assert(absorb_words(start, ws, 0, o, g) == a1);
    assert(is_null_view(c)) by {
        assert(z.pre[0] == IdentView::Num(0));
        assert(ident_text(IdentView::Num(0)) == seq!['0']);
    }
    assert(first_null_from(seq![c], 0) == 0);
    assert(comparator_set(n, o) == Ok::<Seq<CompView>, SetErr>(seq![c]));
    // The range keeps it back as the only set.
    assert forall|k: int| 0 <= k < n.len() implies #[trigger] n[k] != '|' by {}
    lemma_bars_none(n, 0, Seq::empty());
    assert(Seq::<char>::empty() + n.skip(0) =~= n);
    let alts = bars(n);
    assert(alts == seq![n]);
    let acc0 = RangeAcc { set: Seq::empty(), dropped: false, pending: None };
    let acc1 = RangeAcc { set: Seq::empty(), dropped: false, pending: Some(seq![c]) };
    assert(alt_step(Ok(acc0), n, o) == Ok::<RangeAcc, SetErr>(acc1));
    assert(alts_from(Ok(acc1), alts, 1, o) == Ok::<RangeAcc, SetErr>(acc1));
    assert(alts_from(Ok(acc0), alts, 0, o) == Ok::<RangeAcc, SetErr>(acc1));
    let sets = seq![seq![c]];
    assert(range_parse(n, o) == Ok::<Seq<Seq<CompView>>, crate::range::RangeErr>(sets));
    if let Some(v) = parsed(s, o) {
        lemma_zero_pre_lowest(v);
        crate::semver::lemma_ver_order_antisym(v, z);
        assert(!comp_test(c, v));
        assert(!set_test(seq![c], v, o)) by {
            assert(seq![c][0] == c);
        }
        assert(!range_test(sets, v, o)) by {
            if range_test(sets, v, o) {
                let k = choose|k: int| 0 <= k < sets.len() && set_test(#[trigger] sets[k], v, o);
                assert(sets[k] == seq![c]);
            }
        }
    }
}

#[verifier::spinoff_prover]
proof fn lemma_partial_zero_pre(loose: bool)
    ensures
        partial_of(seq!['0', '.', '0', '.', '0', '-', '0'], loose) == Some(
            PartialView { major: Some(0), minor: Some(0), patch: Some(0), pre: Some(seq!['0']) },
        ),
{
    let t = seq!['0', '.', '0', '.', '0', '-', '0'];
    assert forall|k: int| 0 <= k < t.len() implies !is_ws(#[trigger] t[k]) by {}
    lemma_trim_padded(t, Seq::empty(), Seq::empty());
    assert(Seq::<char>::empty() + t + Seq::<char>::empty() =~= t);
    assert(eqv_lead(t) == 0);
    assert(t.skip(0) =~= t);
    assert(partial_body(t, loose) == t);
    lemma_find_none(t, '+', 0);
    assert(t.take(t.len() as int) =~= t);
    assert(find(t, '-') == 5) by {
        assert(find_from(t, '-', 5) == 5);
        assert(find_from(t, '-', 4) == 5);
        assert(find_from(t, '-', 3) == 5);
        assert(find_from(t, '-', 2) == 5);
        assert(find_from(t, '-', 1) == 5);
    }
    let numbers = t.take(5);
    assert(find(numbers, '.') == 1) by {
        assert(find_from(numbers, '.', 1) == 1);
    }
    assert(t.skip(6) =~= seq!['0']);
    assert(split_head(t, loose) == Some((numbers, Some(seq!['0']))));
    assert(numbers =~= main_text(0, 0, 0)) by {
        assert(num_text(0) == seq!['0']);
    }
    let z = seq!['0'];
    assert(num_text(0) == z);
    lemma_split_on_none(z, '.');
    lemma_split_on_concat(z, '.', z);
    lemma_split_on_concat(z.push('.') + z, '.', z);
    assert(numbers =~= (z.push('.') + z).push('.') + z);
    let parts = split_on(numbers, '.');
    assert(parts =~= seq![z, z, z]);
    lemma_component_num(0, loose);
    assert(piece(parts, 0) == Some(z));
    assert(piece(parts, 1) == Some(z));
    assert(piece(parts, 2) == Some(z));
}

// ── the pieces of a simplified range ────────────────────────────────────
/// The version that the text at `i` reads as.
pub open spec fn ver_at(ts: Seq<Seq<char>>, o: Options, i: int) -> VersionView {
    parsed(ts[i], o)->Some_0
}

/// Every text of the list reads as a release that is written exactly
/// that way, and the list is in order of precedence.
pub open spec fn canonical_sorted(ts: Seq<Seq<char>>, o: Options) -> bool {
    &&& forall|i: int|
        0 <= i < ts.len() ==> parsed(#[trigger] ts[i], o) is Some && plain_version(
            parsed(ts[i], o)->Some_0,
            o,
        ) && ts[i] == render(parsed(ts[i], o)->Some_0)
    &&& forall|i: int, j: int|
        0 <= i < j < ts.len() ==> ver_order(ver_at(ts, o, i), ver_at(ts, o, j)) <= 0
}

/// Whether a release `v` lies in what the run at positions `r` is written
/// as: exactly its one version, up to its last version when it starts at
/// the lowest, between its ends, everything when it is open from the
/// lowest, or from its first version up when it is open.
pub open spec fn run_holds(ts: Seq<Seq<char>>, o: Options, r: (int, Option<int>), v: VersionView) -> bool {
    let a = r.0;
    match r.1 {
        Some(b) => if ts[b] == ts[a] {
            ver_order(v, ver_at(ts, o, a)) == 0
        } else if ts[a] == ts[0] {
            ver_order(v, ver_at(ts, o, b)) <= 0
        } else {
            ver_order(v, ver_at(ts, o, a)) >= 0 && ver_order(v, ver_at(ts, o, b)) <= 0
        },
        None => if ts[a] == ts[0] {
            true
        } else {
            ver_order(v, ver_at(ts, o, a)) >= 0
        },
    }
}

/// A word `>=0.0.0` is written only for `0.0.0`, at or below every
/// release.
#[verifier::spinoff_prover]
proof fn lemma_zero_floor_lowest(x: VersionView, v: VersionView, o: Options)
    requires
        plain_version(x, o),
        op_token(Op::Gte, x) == zero_floor(),
        v.pre.len() == 0,
    ensures
        ver_order(v, x) >= 0,
{
    let z = zero_version();
    assert(op_token(Op::Gte, x).skip(2) =~= render(x));
    assert(render(x) =~= seq!['0', '.', '0', '.', '0']);
    assert(num_text(0) == seq!['0']);
    assert(render(z) =~= seq!['0', '.', '0', '.', '0']);
    assert(strict_ids(z.pre));
    assert(well_formed(z));
    lemma_render_reparses(z, o.loose);
    assert(VersionView { build: Seq::empty(), ..z } == z);
    let t = render(z);
    assert(is_ascii_chars(t)) by {
        assert forall|k: int| 0 <= k < t.len() implies '\0' <= #[trigger] t[k] <= '\u{7f}' by {
            lemma_ascii_char(t[k]);
        }
    }
    is_ascii_chars_encode_utf8(t);
    assert(!too_long(t));
    assert(parsed(render(x), o) == Some(z));
    assert(x == z);
}

/// A set of plain comparators admits a release when each comparator
/// does.
#[verifier::spinoff_prover]
proof fn lemma_set_test_release(cs: Seq<CompView>, v: VersionView, o: Options)
    requires
        v.pre.len() == 0,
    ensures
        set_test(cs, v, o) == (forall|k: int| 0 <= k < cs.len() ==> comp_test(#[trigger] cs[k], v)),
{
}

/// A word for a plain version is a piece of a range text.
#[verifier::spinoff_prover]
proof fn lemma_op_token_piece(op: Op, x: VersionView)
    requires
        x.pre.len() == 0,
        op == Op::Gte || op == Op::Lte || op == Op::Eq,
    ensures
        piece_ok(op_token(op, x)),
{
    lemma_op_token_chars(op, x);
}

/// The piece for one plain comparator word.
#[verifier::spinoff_prover]
proof fn lemma_piece_op(op: Op, x: VersionView, v: VersionView, o: Options)
    requires
        plain_version(x, o),
        !o.include_prerelease,
        op == Op::Gte || op == Op::Lte || op == Op::Eq,
        v.pre.len() == 0,
    ensures
        piece_ok(op_token(op, x)),
        usable_set(comparator_set(op_token(op, x), o)),
        set_test(comparator_set(op_token(op, x), o)->Ok_0, v, o) == comp_test(op_comp(op, x), v),
{
    lemma_op_token_piece(op, x);
    lemma_op_token_set(op, x, o);
    let c = op_comp(op, x);
    assert(seq![c][0] == c);
    lemma_set_test_release(seq![c], v, o);
    assert(!is_null_view(c));
}

/// The piece `*`.
#[verifier::spinoff_prover]
proof fn lemma_piece_star(v: VersionView, o: Options)
    requires
        v.pre.len() == 0,
    ensures
        piece_ok(seq!['*']),
        usable_set(comparator_set(seq!['*'], o)),
        set_test(comparator_set(seq!['*'], o)->Ok_0, v, o),
{
    lemma_star_set(o);
    assert(seq![any_view()][0] == any_view());
    lemma_set_test_release(seq![any_view()], v, o);
}

/// The piece `from - to`.
#[verifier::spinoff_prover]
proof fn lemma_piece_hyphen(x: VersionView, y: VersionView, v: VersionView, o: Options)
    requires
        plain_version(x, o),
        plain_version(y, o),
        !o.include_prerelease,
        v.pre.len() == 0,
    ensures
        piece_ok(hyphen_token(x, y)),
        usable_set(comparator_set(hyphen_token(x, y), o)),
        set_test(comparator_set(hyphen_token(x, y), o)->Ok_0, v, o) == (ver_order(v, x) >= 0
            && ver_order(v, y) <= 0),
{
    let pt = hyphen_token(x, y);
    lemma_hyphen_set(x, y, o);
    lemma_main_text_plain(x.major, x.minor, x.patch);
    lemma_main_text_plain(y.major, y.minor, y.patch);
    lemma_plain_chars(render(x));
    lemma_plain_chars(render(y));
    assert(piece_ok(pt)) by {
        assert(pt[0] == render(x)[0]);
        assert(pt.last() == render(y).last());
        assert forall|k: int| 0 <= k < pt.len() implies #[trigger] pt[k] != '|' by {
            let n = render(x).len() as int;
            if k < n {
                assert(pt[k] == render(x)[k]);
            } else if k >= n + 3 {
                assert(pt[k] == render(y)[k - n - 3]);
            }
        }
    }
    let hc = hyphen_comps(x, y);
    lemma_set_test_release(hc, v, o);
    if op_token(Op::Gte, x) == zero_floor() {
        lemma_zero_floor_lowest(x, v, o);
        assert(hc[0] == CompView { op: Op::Lte, ver: Some(y) });
    } else {
        assert(hc[0] == CompView { op: Op::Gte, ver: Some(x) });
        assert(hc[1] == CompView { op: Op::Lte, ver: Some(y) });
    }
}

/// A plain version's text begins with a digit, so it is never `>=0.0.0`
/// or written with an operator.
#[verifier::spinoff_prover]
proof fn lemma_op_comp_plain(op: Op, x: VersionView, o: Options)
    requires
        plain_version(x, o),
        op == Op::Lte || op == Op::Eq,
    ensures
        op_comp(op, x) == (CompView { op, ver: Some(x) }),
{
    lemma_op_token_chars(op, x);
    lemma_main_text_plain(x.major, x.minor, x.patch);
    if op == Op::Eq {
        assert(op_token(op, x)[0] == render(x)[0]);
    }
    assert(op_token(op, x)[0] != zero_floor()[0]);
}

/// Each piece of a simplified range is a piece of a range text, reads
/// as a usable set, and admits a release exactly when its run holds it.
#[verifier::spinoff_prover]
pub proof fn lemma_run_piece(ts: Seq<Seq<char>>, o: Options, r: (int, Option<int>), v: VersionView)
    requires
        canonical_sorted(ts, o),
        !o.include_prerelease,
        0 <= r.0 < ts.len(),
        r.1 is Some ==> r.0 <= r.1->Some_0 < ts.len(),
        v.pre.len() == 0,
    ensures
        piece_ok(run_text(run_at(ts, r), ts[0])),
        usable_set(comparator_set(run_text(run_at(ts, r), ts[0]), o)),
        set_test(comparator_set(run_text(run_at(ts, r), ts[0]), o)->Ok_0, v, o) == run_holds(
            ts,
            o,
            r,
            v,
        ),
{
    let a = r.0;
    let x = ver_at(ts, o, a);
    assert(parsed(ts[a], o) is Some);
    assert(ts[a] == render(x));
    assert(plain_version(x, o));
    let pt = run_text(run_at(ts, r), ts[0]);
    match r.1 {
        Some(b) => {
            let y = ver_at(ts, o, b);
            assert(parsed(ts[b], o) is Some);
            assert(ts[b] == render(y));
            assert(plain_version(y, o));
            if ts[b] == ts[a] {
                assert(op_token(Op::Eq, x) =~= pt);
                lemma_piece_op(Op::Eq, x, v, o);
                lemma_op_comp_plain(Op::Eq, x, o);
            } else if ts[a] == ts[0] {
                assert(op_token(Op::Lte, y) =~= pt);
                lemma_piece_op(Op::Lte, y, v, o);
                lemma_op_comp_plain(Op::Lte, y, o);
            } else {
                assert(pt =~= hyphen_token(x, y));
                lemma_piece_hyphen(x, y, v, o);
            }
        },
        None => {
            if ts[a] == ts[0] {
                assert(pt == seq!['*']);
                lemma_piece_star(v, o);
            } else {
                assert(op_token(Op::Gte, x) =~= pt);
                lemma_piece_op(Op::Gte, x, v, o);
                if op_token(Op::Gte, x) == zero_floor() {
                    lemma_zero_floor_lowest(x, v, o);
                }
            }
        },
    }
}

// ── the law ─────────────────────────────────────────────────────────────
#[verifier::spinoff_prover]
proof fn lemma_sorted_le(ts: Seq<Seq<char>>, o: Options, i: int, j: int)
    requires
        canonical_sorted(ts, o),
        0 <= i <= j < ts.len(),
    ensures
        ver_order(ver_at(ts, o, i), ver_at(ts, o, j)) <= 0,
{
    if i == j {
        crate::semver::lemma_ver_order_reflexive(ver_at(ts, o, i));
    }
}

/// Texts of the list whose versions rank equal are the same text.
#[verifier::spinoff_prover]
proof fn lemma_same_rank_same_text(ts: Seq<Seq<char>>, o: Options, p: int, q: int)
    requires
        canonical_sorted(ts, o),
        0 <= p < ts.len(),
        0 <= q < ts.len(),
        ver_order(ver_at(ts, o, p), ver_at(ts, o, q)) == 0,
    ensures
        ts[p] == ts[q],
{
    let x = ver_at(ts, o, p);
    let y = ver_at(ts, o, q);
    assert(parsed(ts[p], o) is Some && parsed(ts[q], o) is Some);
    lemma_ver_order_antisym(x, y);
    assert(plain_version(x, o) && plain_version(y, o));
    assert(x.pre =~= y.pre);
    assert(render(x) == render(y));
}

/// `a <= b` and `b <= a` in precedence means they rank equal.
#[verifier::spinoff_prover]
proof fn lemma_both_ways(x: VersionView, y: VersionView)
    requires
        ver_order(x, y) <= 0,
        ver_order(y, x) <= 0,
    ensures
        ver_order(x, y) == 0,
{
    lemma_ver_order_antisym(x, y);
}

/// A version of the list lies in the text of some run exactly when the
/// given range admits it.
#[verifier::spinoff_prover]
proof fn lemma_holds_iff_satisfies(ts: Seq<Seq<char>>, range: Seq<char>, o: Options, p: int)
    requires
        canonical_sorted(ts, o),
        0 <= p < ts.len(),
    ensures
        (exists|k: int|
            0 <= k < pos_runs(ts, range, o).len() && run_holds(
                ts,
                o,
                #[trigger] pos_runs(ts, range, o)[k],
                ver_at(ts, o, p),
            )) == crate::satisfies_spec(ts[p], range, o),
{
    let pr = pos_runs(ts, range, o);
    let xp = ver_at(ts, o, p);
    lemma_pos_runs_bounds(ts, range, o);
    lemma_runs_cover(ts, range, o, p);
    if crate::satisfies_spec(ts[p], range, o) {
        let k = choose|k: int| 0 <= k < pr.len() && covers(#[trigger] pr[k], p);
        let r = pr[k];
        let a = r.0;
        lemma_sorted_le(ts, o, a, p);
        lemma_ver_order_antisym(ver_at(ts, o, a), xp);
        if let Some(b) = r.1 {
            lemma_sorted_le(ts, o, p, b);
            if ts[b] == ts[a] {
                assert(ver_at(ts, o, a) == ver_at(ts, o, b));
                lemma_both_ways(xp, ver_at(ts, o, a));
            }
        }
        assert(run_holds(ts, o, pr[k], xp));
    }
    if exists|k: int| 0 <= k < pr.len() && run_holds(ts, o, #[trigger] pr[k], xp) {
        let k = choose|k: int| 0 <= k < pr.len() && run_holds(ts, o, #[trigger] pr[k], xp);
        let r = pr[k];
        let a = r.0;
        if !covers(r, p) {
            // The version ranks equal to an end of the run, so it is the
            // same text as that end, which the range admits.
            let q = if p < a {
                lemma_sorted_le(ts, o, p, a);
                lemma_ver_order_antisym(xp, ver_at(ts, o, a));
                if r.1 is None && ts[a] == ts[0] || (r.1 is Some && ts[r.1->Some_0] != ts[a] && ts[a]
                    == ts[0]) {
                    lemma_sorted_le(ts, o, 0, p);
                    assert(ver_at(ts, o, a) == ver_at(ts, o, 0));
                }
                lemma_both_ways(xp, ver_at(ts, o, a));
                a
            } else {
                let b = r.1->Some_0;
                lemma_sorted_le(ts, o, b, p);
                lemma_ver_order_antisym(xp, ver_at(ts, o, b));
                if ts[b] == ts[a] {
                    assert(ver_at(ts, o, a) == ver_at(ts, o, b));
                }
                lemma_both_ways(xp, ver_at(ts, o, b));
                b
            };
            lemma_same_rank_same_text(ts, o, p, q);
            lemma_runs_cover(ts, range, o, q);
            assert(covers(pr[k], q));
        }
    }
}

/// Over a list of versions that are each written in canonical form
/// without a prerelease and that stand in order of precedence, the range
/// `simplify_range` proposes admits exactly the versions of the list that
/// the given range admits, when prereleases are not admitted.
#[verifier::spinoff_prover]
pub proof fn lemma_simplified_same_items(
    ts: Seq<Seq<char>>,
    range: Seq<char>,
    o: Options,
    p: int,
)
    requires
        canonical_sorted(ts, o),
        !o.include_prerelease,
        0 <= p < ts.len(),
    ensures
        crate::satisfies_spec(ts[p], simplified(ts, range, o), o) == crate::satisfies_spec(
            ts[p],
            range,
            o,
        ),
{
    let pr = pos_runs(ts, range, o);
    let runs = runs_of(ts, range, o);
    let lowest = ts[0];
    let xp = ver_at(ts, o, p);
    assert(parsed(ts[p], o) is Some);
    assert(plain_version(xp, o));
    lemma_runs_at_positions(ts, range, o);
    lemma_pos_runs_bounds(ts, range, o);
    lemma_holds_iff_satisfies(ts, range, o, p);
    let ps = runs.map_values(|r: (Seq<char>, Option<Seq<char>>)| run_text(r, lowest));
    let text = runs_text(runs, lowest);
    assert(text == join_with(ps, seq![' ', '|', '|', ' ']));
    assert forall|k: int| 0 <= k < ps.len() implies #[trigger] ps[k] == run_text(
        run_at(ts, pr[k]),
        ts[0],
    ) by {
        assert(runs[k] == run_at(ts, pr[k]));
    }
    if pr.len() == 0 {
        assert(ps.len() == 0);
        assert(text =~= Seq::<char>::empty());
        lemma_null_text(ts[p], o);
        assert(!crate::satisfies_spec(ts[p], range, o));
    } else {
        assert forall|k: int| 0 <= k < ps.len() implies piece_ok(#[trigger] ps[k]) && usable_set(
            comparator_set(ps[k], o),
        ) && set_test(comparator_set(ps[k], o)->Ok_0, xp, o) == run_holds(ts, o, pr[k], xp) by {
            lemma_run_piece(ts, o, pr[k], xp);
        }
        assert forall|k: int| 0 <= k < ps.len() implies piece_ok(#[trigger] ps[k]) by {}
        assert forall|k: int| 0 <= k < ps.len() implies usable_set(
            #[trigger] comparator_set(ps[k], o),
        ) by {}
        lemma_joined_range(ps, xp, o);
        lemma_join_is_bar_join(ps);
        lemma_bar_join_ends(ps);
        assert(text.len() > 0);
        let sets = range_parse(text, o)->Ok_0;
        assert(crate::satisfies_spec(ts[p], text, o) == range_test(sets, xp, o));
        assert((exists|k: int|
            0 <= k < ps.len() && set_test(#[trigger] comparator_set(ps[k], o)->Ok_0, xp, o)) == (
        exists|k: int| 0 <= k < pr.len() && run_holds(ts, o, #[trigger] pr[k], xp))) by {
            if exists|k: int|
                0 <= k < ps.len() && set_test(#[trigger] comparator_set(ps[k], o)->Ok_0, xp, o) {
                let k = choose|k: int|
                    0 <= k < ps.len() && set_test(#[trigger] comparator_set(ps[k], o)->Ok_0, xp, o);
                assert(run_holds(ts, o, pr[k], xp));
            }
            if exists|k: int| 0 <= k < pr.len() && run_holds(ts, o, #[trigger] pr[k], xp) {
                let k = choose|k: int| 0 <= k < pr.len() && run_holds(ts, o, #[trigger] pr[k], xp);
                assert(set_test(comparator_set(ps[k], o)->Ok_0, xp, o));
            }
        }
    }
}

} // verus!
