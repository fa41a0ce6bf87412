//! Ranges: comparator sets joined by `||`, each set a list of
//! comparators that must all hold.
//!
//! A range is read as text: the hyphen form is rewritten first, operators
//! are glued to their versions, the text is split into words, each word's
//! caret, tilde or X-range sugar is rewritten into plain comparators, and
//! those are read one by one. The specifications below follow the same
//! steps over character sequences.
use crate::comparator::{
    any_view, comp_well_formed, comp_parse, comp_test, comp_text, is_null_view, CompView, Comparator,
    Op,
};
use crate::constants::{IntoOptions, Options, MAX_SAFE_INTEGER};
use crate::desugar::{
    bars, caret_chars, caret_text, find, find_char, glue, glue_operators, hyphen_chars,
    hyphen_text, keep_zero, lead_in, split_bars, split_words, tilde_chars, tilde_text, words,
    xrange_chars, xrange_text,
};
use crate::error::{Error, Result};
use crate::identifiers::{IdentView, Identifier};
use crate::semver::{parsed, SemVer, VersionView};
use crate::text::{
    all_digits, chars_of, dec_value, pieces_view, same_text, slice,
    split_char, split_on, string_of, trim, trim_vec, };
use vstd::prelude::*;

verus! {

// ── one word of a comparator set ────────────────────────────────────────
/// Why a comparator set cannot be read, with the text the error carries.
pub enum SetErr {
    /// A component larger than `MAX_SAFE_INTEGER`: fatal to the whole
    /// range. Carries the glued text of the set.
    Oversized(Seq<char>),
    /// In strict mode, a comparator that does not parse. Carries it.
    Comp(Seq<char>),
    /// In loose mode, every word was dropped. Carries the glued text.
    NoUsable(Seq<char>),
}

/// What one word contributes to a comparator set.
pub enum Item {
    /// The comparator that matches everything.
    Any,
    /// A comparator.
    Comp(CompView),
    /// Nothing: an unreadable word dropped in loose mode.
    Skip,
    /// The set cannot be read.
    Fatal(SetErr),
}

/// The number of trailing keep-zero markers.
pub open spec fn mark_trail(p: Seq<char>) -> nat
    decreases p.len(),
{
    if p.len() > 0 && p.last() == keep_zero() {
        1 + mark_trail(p.drop_last())
    } else {
        0
    }
}

/// The word without its trailing keep-zero markers.
pub open spec fn strip_mark(p: Seq<char>) -> Seq<char> {
    p.take(p.len() - mark_trail(p))
}

/// The word without build metadata: everything from the first `+`.
pub open spec fn strip_build(p: Seq<char>) -> Seq<char> {
    p.take(find(p, '+'))
}

/// The number of leading operator characters (`<`, `>`, `=`, `~`, `^`).
pub open spec fn op_lead(s: Seq<char>) -> nat
    decreases s.len(),
{
    if s.len() > 0 && (s[0] == '<' || s[0] == '>' || s[0] == '=' || s[0] == '~' || s[0] == '^') {
        1 + op_lead(s.drop_first())
    } else {
        0
    }
}

/// The index of the first `-` or `+`, or the length.
pub open spec fn dash_plus(s: Seq<char>) -> int {
    let a = find(s, '-');
    let b = find(s, '+');
    if a < b {
        a
    } else {
        b
    }
}

/// An all-digit component larger than `MAX_SAFE_INTEGER`.
pub open spec fn big_component(c: Seq<char>) -> bool {
    c.len() > 0 && all_digits(c) && dec_value(c) > MAX_SAFE_INTEGER
}

/// Whether a comparator names a numeric component larger than
/// `MAX_SAFE_INTEGER`: after the operator characters, unless the text
/// starts with `V`, the dot-separated pieces before any `-` or `+`
/// (without leading `v`s) include an all-digit one above the bound.
pub open spec fn oversized(p: Seq<char>) -> bool {
    let body = trim(p.skip(op_lead(p) as int));
    if body.len() > 0 && body[0] == 'V' {
        false
    } else {
        let h0 = body.take(dash_plus(body));
        let h = h0.skip(lead_in(h0, 'v', 'v') as int);
        exists|k: int| 0 <= k < split_on(h, '.').len() && #[trigger] big_component(split_on(h, '.')[k])
    }
}

/// `>=0.0.0`
pub open spec fn zero_floor() -> Seq<char> {
    seq!['>', '=', '0', '.', '0', '.', '0']
}

/// `>=0.0.0-0`
pub open spec fn zero_floor_pre() -> Seq<char> {
    seq!['>', '=', '0', '.', '0', '.', '0', '-', '0']
}

/// What one word of a rewritten set gives. `>=0.0.0` (`>=0.0.0-0` when
/// prereleases are admitted) is the same as `*` unless it carries the
/// keep-zero marker. Otherwise the marker and any build metadata are
/// removed and the comparator is read; one that does not read is fatal
/// when oversized, fatal in strict mode, and dropped in loose mode.
/// `g` is the glued text of the whole set.
pub open spec fn part_item(part: Seq<char>, o: Options, g: Seq<char>) -> Item {
    let keep = part.contains(keep_zero());
    if part == zero_floor() && !o.include_prerelease && !keep {
        Item::Any
    } else if strip_mark(part) == zero_floor_pre() && o.include_prerelease && !keep {
        Item::Any
    } else {
        let p = strip_build(strip_mark(part));
        match comp_parse(p, o) {
            Some(c) => Item::Comp(c),
            None => if oversized(p) {
                Item::Fatal(SetErr::Oversized(g))
            } else if !o.loose {
                Item::Fatal(SetErr::Comp(p))
            } else {
                Item::Skip
            },
        }
    }
}

/// A word with its sugar rewritten: caret, else tilde, else X-range,
/// else the word itself.
pub open spec fn desugar(token: Seq<char>, o: Options) -> Seq<char> {
    match caret_text(token, o) {
        Some(t) => t,
        None => match tilde_text(token, o) {
            Some(t) => t,
            None => match xrange_text(token, o) {
                Some(t) => t,
                None => token,
            },
        },
    }
}

/// What a word of the glued set contributes: `*` when its rewrite is
/// empty, else one item per word of the rewrite.
pub open spec fn token_items(token: Seq<char>, o: Options, g: Seq<char>) -> Seq<Item> {
    let d = desugar(token, o);
    if d.len() == 0 {
        seq![Item::Any]
    } else {
        words(d).map_values(|p: Seq<char>| part_item(p, o, g))
    }
}

/// The comparators read so far and whether a word was dropped, or the
/// error that ended the reading.
pub type SetAcc = core::result::Result<(Seq<CompView>, bool), SetErr>;

/// Add one item.
pub open spec fn absorb(acc: SetAcc, it: Item) -> SetAcc {
    match acc {
        Err(e) => Err(e),
        Ok((cs, u)) => match it {
            Item::Any => Ok((cs.push(any_view()), u)),
            Item::Comp(c) => Ok((cs.push(c), u)),
            Item::Skip => Ok((cs, true)),
            Item::Fatal(e) => Err(e),
        },
    }
}

/// Add the items from `j` on.
pub open spec fn absorb_from(acc: SetAcc, items: Seq<Item>, j: int) -> SetAcc
    decreases items.len() - j,
{
    if j < 0 || j >= items.len() {
        acc
    } else {
        absorb_from(absorb(acc, items[j]), items, j + 1)
    }
}

/// Add the items of the words from `i` on.
pub open spec fn absorb_words(
    acc: SetAcc,
    tokens: Seq<Seq<char>>,
    i: int,
    o: Options,
    g: Seq<char>,
) -> SetAcc
    decreases tokens.len() - i,
{
    if i < 0 || i >= tokens.len() {
        acc
    } else {
        absorb_words(absorb_from(acc, token_items(tokens[i], o, g), 0), tokens, i + 1, o, g)
    }
}

proof fn lemma_absorb_from_err(e: SetErr, items: Seq<Item>, j: int)
    ensures
        absorb_from(Err(e), items, j) == Err::<(Seq<CompView>, bool), SetErr>(e),
    decreases items.len() - j,
{
    if 0 <= j < items.len() {
        lemma_absorb_from_err(e, items, j + 1);
    }
}

proof fn lemma_absorb_words_err(e: SetErr, tokens: Seq<Seq<char>>, i: int, o: Options, g: Seq<char>)
    ensures
        absorb_words(Err(e), tokens, i, o, g) == Err::<(Seq<CompView>, bool), SetErr>(e),
    decreases tokens.len() - i,
{
    if 0 <= i < tokens.len() {
        lemma_absorb_from_err(e, token_items(tokens[i], o, g), 0);
        lemma_absorb_words_err(e, tokens, i + 1, o, g);
    }
}

/// The first comparator that nothing satisfies, from `i`, or the length.
pub open spec fn first_null_from(cs: Seq<CompView>, i: int) -> int
    decreases cs.len() - i,
{
    if i >= cs.len() {
        cs.len() as int
    } else if is_null_view(cs[i]) {
        i
    } else {
        first_null_from(cs, i + 1)
    }
}

/// Whether some comparator names a version.
pub open spec fn has_specific(cs: Seq<CompView>) -> bool {
    exists|k: int| 0 <= k < cs.len() && #[trigger] cs[k].ver is Some
}

/// Whether a comparator written as `t` is already present.
pub open spec fn seen_text(d: Seq<CompView>, t: Seq<char>) -> bool {
    exists|k: int| 0 <= k < d.len() && #[trigger] comp_text(d[k]) == t
}

/// The comparators in order, without `*` when `drop_any` holds, and
/// without any that is written the same as an earlier one.
pub open spec fn tidy(cs: Seq<CompView>, drop_any: bool) -> Seq<CompView>
    decreases cs.len(),
{
    if cs.len() == 0 {
        Seq::empty()
    } else {
        let d = tidy(cs.drop_last(), drop_any);
        let c = cs.last();
        if (drop_any && c.ver is None) || seen_text(d, comp_text(c)) {
            d
        } else {
            d.push(c)
        }
    }
}

/// The text a set's words are read from: trimmed, the hyphen form
/// rewritten, operators glued.
pub open spec fn glued_set(text: Seq<char>, o: Options) -> Seq<char> {
    let t0 = trim(text);
    glue(
        match hyphen_text(t0, o) {
            Some(h) => h,
            None => t0,
        },
    )
}

/// What a comparator set reads as. With no comparator at all it is `*`
/// (or an error when words were dropped); one that nothing satisfies
/// collapses the set to itself; otherwise `*` goes once anything more
/// specific is present, and repeats go.
pub open spec fn comparator_set(text: Seq<char>, o: Options) -> core::result::Result<
    Seq<CompView>,
    SetErr,
> {
    let g = glued_set(text, o);
    match absorb_words(Ok((Seq::empty(), false)), words(g), 0, o, g) {
        Err(e) => Err(e),
        Ok((cs, u)) => if cs.len() == 0 {
            if u {
                Err(SetErr::NoUsable(g))
            } else {
                Ok(seq![any_view()])
            }
        } else if first_null_from(cs, 0) < cs.len() {
            Ok(seq![cs[first_null_from(cs, 0)]])
        } else {
            Ok(tidy(cs, has_specific(cs)))
        },
    }
}

/// The error value for a set that cannot be read.
pub open spec fn set_error_is(e: Error, k: SetErr) -> bool {
    match k {
        SetErr::Oversized(t) => e matches Error::InvalidRange { input, reason } && input@ == t
            && reason@ == "component exceeds the maximum safe integer"@,
        SetErr::Comp(p) => e matches Error::InvalidComparator { input, reason } && input@ == p
            && reason@ == "the version part is not valid"@,
        SetErr::NoUsable(t) => e matches Error::InvalidRange { input, reason } && input@ == t
            && reason@ == "no usable comparator in this alternative"@,
    }
}

/// The views of a list of comparators.
pub open spec fn comps_view(v: Seq<Comparator>) -> Seq<CompView> {
    v.map_values(|c: Comparator| c@)
}

/// Every comparator carries the options `o` and keeps its numbers within
/// `MAX_SAFE_INTEGER`.
pub open spec fn comps_wf(v: Seq<Comparator>, o: Options) -> bool {
    forall|k: int|
        0 <= k < v.len() ==> (#[trigger] v[k]).options == o && comp_well_formed(v[k]@) && (
        v[k].version matches Some(x) ==> x.options == o)
}

/// One word's contribution, in executable form.
enum ItemX {
    Any,
    Comp(Comparator),
    Skip,
    /// The error, and whether it is the oversized kind.
    Fatal(Error, bool),
}

spec fn item_matches(r: ItemX, it: Item, o: Options) -> bool {
    match it {
        Item::Any => r is Any,
        Item::Comp(c) => r matches ItemX::Comp(x) && x@ == c && x.options == o && comp_well_formed(c)
            && (x.version matches Some(v) ==> v.options == o),
        Item::Skip => r is Skip,
        Item::Fatal(k) => r matches ItemX::Fatal(e, b) && set_error_is(e, k) && b == (
        k is Oversized),
    }
}

proof fn lemma_find_contains(s: Seq<char>, c: char)
    ensures
        (find(s, c) < s.len()) == s.contains(c),
{
    crate::desugar::lemma_find_from(s, c, 0);
    if find(s, c) < s.len() {
        assert(s[find(s, c)] == c);
    }
}

fn strip_ops(s: &Vec<char>) -> (r: Vec<char>)
    ensures
        r@ == s@.skip(op_lead(s@) as int),
{
    let mut i: usize = 0;
    assert(s@.skip(0) =~= s@);
    while i < s.len() && (s[i] == '<' || s[i] == '>' || s[i] == '=' || s[i] == '~' || s[i] == '^')
        invariant
            i <= s@.len(),
            op_lead(s@.skip(i as int)) + i == op_lead(s@),
        decreases s@.len() - i,
    {
        assert(s@.skip(i as int).drop_first() =~= s@.skip(i + 1));
        i = i + 1;
    }
    proof {
        if i < s@.len() {
            assert(s@.skip(i as int)[0] == s@[i as int]);
        }
    }
    slice(s, i, s.len())
}

fn strip_mark_exec(p: &Vec<char>) -> (r: Vec<char>)
    ensures
        r@ == strip_mark(p@),
{
    let n = p.len();
    let mut j: usize = n;
    assert(p@.take(n as int) =~= p@);
    while j > 0 && p[j - 1] == '\u{200b}'
        invariant
            j <= n,
            n == p@.len(),
            mark_trail(p@.take(j as int)) + (n - j) == mark_trail(p@),
        decreases j,
    {
        assert(p@.take(j as int).drop_last() =~= p@.take(j - 1));
        j = j - 1;
    }
    proof {
        if j > 0 {
            assert(p@.take(j as int).last() == p@[j - 1]);
        }
    }
    slice(p, 0, j)
}

fn big_component_exec(c: &Vec<char>) -> (r: bool)
    ensures
        r == big_component(c@),
{
    if c.len() == 0 || !crate::desugar::all_digits_exec(c) {
        return false;
    }
    assert(c@.subrange(0, c@.len() as int) =~= c@);
    crate::text::read_number(c, 0, c.len()).is_none()
}

fn oversized_exec(p: &Vec<char>) -> (r: bool)
    ensures
        r == oversized(p@),
{
    let t = strip_ops(p);
    let body = trim_vec(&t);
    if body.len() > 0 && body[0] == 'V' {
        return false;
    }
    let a = find_char(&body, '-');
    let b = find_char(&body, '+');
    let e = if a < b {
        a
    } else {
        b
    };
    let h0 = slice(&body, 0, e);
    assert(h0@ =~= body@.take(e as int));
    let h = crate::desugar::strip_lead(&h0, 'v', 'v');
    let pieces = split_char(&h, '.');
    let ghost pv = split_on(h@, '.');
    let mut i: usize = 0;
    assert(oversized(p@) == exists|k: int| 0 <= k < pv.len() && #[trigger] big_component(pv[k]));
    while i < pieces.len()
        invariant
            i <= pieces@.len(),
            pieces_view(pieces@) == pv,
            oversized(p@) == exists|k: int| 0 <= k < pv.len() && #[trigger] big_component(pv[k]),
            forall|k: int| 0 <= k < i ==> !#[trigger] big_component(pv[k]),
        decreases pieces@.len() - i,
    {
        assert(pv[i as int] == pieces@[i as int]@);
        if big_component_exec(&pieces[i]) {
            return true;
        }
        i = i + 1;
    }
    false
}

fn is_zero_floor(p: &Vec<char>) -> (r: bool)
    ensures
        r == (p@ == zero_floor()),
{
    let r = p.len() == 7 && p[0] == '>' && p[1] == '=' && p[2] == '0' && p[3] == '.' && p[4] == '0'
        && p[5] == '.' && p[6] == '0';
    proof {
        if r {
            assert(p@ =~= zero_floor());
        }
    }
    r
}

fn is_zero_floor_pre(p: &Vec<char>) -> (r: bool)
    ensures
        r == (p@ == zero_floor_pre()),
{
    let r = p.len() == 9 && p[0] == '>' && p[1] == '=' && p[2] == '0' && p[3] == '.' && p[4] == '0'
        && p[5] == '.' && p[6] == '0' && p[7] == '-' && p[8] == '0';
    proof {
        if r {
            assert(p@ =~= zero_floor_pre());
        }
    }
    r
}

fn part_exec(part: &Vec<char>, o: Options, g: &Vec<char>) -> (r: ItemX)
    ensures
        item_matches(r, part_item(part@, o, g@), o),
{
    proof {
        lemma_find_contains(part@, keep_zero());
    }
    let keep = find_char(part, '\u{200b}') < part.len();
    if is_zero_floor(part) && !o.include_prerelease && !keep {
        return ItemX::Any;
    }
    let sm = strip_mark_exec(part);
    if is_zero_floor_pre(&sm) && o.include_prerelease && !keep {
        return ItemX::Any;
    }
    let plus = find_char(&sm, '+');
    let p = slice(&sm, 0, plus);
    assert(p@ =~= strip_build(strip_mark(part@)));
    match Comparator::parse_chars(&p, o) {
        Some(c) => ItemX::Comp(c),
        None => {
            if oversized_exec(&p) {
                ItemX::Fatal(
                    Error::InvalidRange {
                        input: string_of(g),
                        reason: "component exceeds the maximum safe integer",
                    },
                    true,
                )
            } else if !o.loose {
                ItemX::Fatal(
                    Error::InvalidComparator {
                        input: string_of(&p),
                        reason: "the version part is not valid",
                    },
                    false,
                )
            } else {
                ItemX::Skip
            }
        },
    }
}

fn desugar_exec(token: &Vec<char>, o: Options) -> (r: Vec<char>)
    ensures
        r@ == desugar(token@, o),
{
    match caret_chars(token, o) {
        Some(t) => t,
        None => match tilde_chars(token, o) {
            Some(t) => t,
            None => match xrange_chars(token, o) {
                Some(t) => t,
                None => slice(token, 0, token.len()),
            },
        },
    }
}

fn contains_text(seen: &Vec<Vec<char>>, key: &Vec<char>) -> (r: bool)
    ensures
        r == (exists|k: int| 0 <= k < seen@.len() && #[trigger] seen@[k]@ == key@),
{
    let mut i: usize = 0;
    while i < seen.len()
        invariant
            i <= seen@.len(),
            forall|k: int| 0 <= k < i ==> #[trigger] seen@[k]@ != key@,
        decreases seen@.len() - i,
    {
        if same_text(&seen[i], key) {
            return true;
        }
        i = i + 1;
    }
    false
}

/// Read one comparator set; the error comes with whether it is the
/// oversized kind.
fn comparator_set_exec(text: &Vec<char>, o: Options) -> (r: core::result::Result<
    Vec<Comparator>,
    (Error, bool),
>)
    ensures
        match comparator_set(text@, o) {
            Ok(cs) => r is Ok && comps_view(r->Ok_0@) == cs && comps_wf(r->Ok_0@, o),
            Err(k) => r is Err && set_error_is(r->Err_0.0, k) && r->Err_0.1 == (k is Oversized),
        },
{
    let t0 = trim_vec(text);
    let t1 = match hyphen_chars(&t0, o) {
        Some(h) => h,
        None => t0,
    };
    let g = glue_operators(&t1);
    assert(g@ == glued_set(text@, o));
    let tokens = split_words(&g);
    let ghost tv = words(g@);
    let ghost total = absorb_words(Ok((Seq::empty(), false)), tv, 0, o, g@);
    let mut comps: Vec<Comparator> = Vec::new();
    let mut unusable = false;
    let mut i: usize = 0;
    assert(comps_view(comps@) =~= Seq::<CompView>::empty());
    while i < tokens.len()
        invariant
            i <= tokens@.len(),
            g@ == glued_set(text@, o),
            tv == words(g@),
            total == absorb_words(Ok((Seq::empty(), false)), tv, 0, o, g@),
            pieces_view(tokens@) == tv,
            absorb_words(Ok((comps_view(comps@), unusable)), tv, i as int, o, g@) == total,
            comps_wf(comps@, o),
        decreases tokens@.len() - i,
    {
        assert(tv[i as int] == tokens@[i as int]@);
        let d = desugar_exec(&tokens[i], o);
        let ghost items = token_items(tv[i as int], o, g@);
        if d.len() == 0 {
            let ghost acc = Ok::<(Seq<CompView>, bool), SetErr>((comps_view(comps@), unusable));
            assert(items == seq![Item::Any]);
            assert(absorb_from(acc, items, 0) == absorb_from(absorb(acc, Item::Any), items, 1));
            comps.push(Comparator::any(o));
            assert(comps_view(comps@) =~= acc->Ok_0.0.push(any_view()));
        } else {
            let parts = split_words(&d);
            let mut j: usize = 0;
            assert(items == words(d@).map_values(|p: Seq<char>| part_item(p, o, g@)));
            while j < parts.len()
                invariant
                    j <= parts@.len(),
                    i < tokens@.len(),
                    g@ == glued_set(text@, o),
                    tv == words(g@),
                    total == absorb_words(Ok((Seq::empty(), false)), tv, 0, o, g@),
                    pieces_view(tokens@) == tv,
                    pieces_view(parts@) == words(d@),
                    items == words(d@).map_values(|p: Seq<char>| part_item(p, o, g@)),
                    absorb_words(
                        absorb_from(Ok((comps_view(comps@), unusable)), items, j as int),
                        tv,
                        i + 1,
                        o,
                        g@,
                    ) == total,
                    comps_wf(comps@, o),
                decreases parts@.len() - j,
            {
                let ghost acc = Ok::<(Seq<CompView>, bool), SetErr>((comps_view(comps@), unusable));
                assert(items[j as int] == part_item(parts@[j as int]@, o, g@));
                let it = part_exec(&parts[j], o, &g);
                match it {
                    ItemX::Any => {
                        comps.push(Comparator::any(o));
                        assert(comps_view(comps@) =~= acc->Ok_0.0.push(any_view()));
                    },
                    ItemX::Comp(c) => {
                        let ghost cv = c@;
                        comps.push(c);
                        assert(comps_view(comps@) =~= acc->Ok_0.0.push(cv));
                    },
                    ItemX::Skip => {
                        unusable = true;
                    },
                    ItemX::Fatal(e, b) => {
                        proof {
                            let k = items[j as int]->Fatal_0;
                            assert(absorb_from(acc, items, j as int) == absorb_from(
                                absorb(acc, items[j as int]),
                                items,
                                j + 1,
                            ));
                            lemma_absorb_from_err(k, items, j + 1);
                            lemma_absorb_words_err(k, tv, i + 1, o, g@);
                        }
                        return Err((e, b));
                    },
                }
                j = j + 1;
            }
        }
        i = i + 1;
    }
    let ghost cv = comps_view(comps@);
    assert(total == Ok::<(Seq<CompView>, bool), SetErr>((cv, unusable)));
    if comps.len() == 0 {
        if unusable {
            return Err(
                (
                    Error::InvalidRange {
                        input: string_of(&g),
                        reason: "no usable comparator in this alternative",
                    },
                    false,
                ),
            );
        }
        let mut one: Vec<Comparator> = Vec::new();
        one.push(Comparator::any(o));
        assert(comps_view(one@) =~= seq![any_view()]);
        return Ok(one);
    }
    let mut k: usize = 0;
    while k < comps.len() && !comps[k].is_null_set()
        invariant
            k <= comps@.len(),
            cv == comps_view(comps@),
            first_null_from(cv, k as int) == first_null_from(cv, 0),
        decreases comps@.len() - k,
    {
        assert(cv[k as int] == comps@[k as int]@);
        k = k + 1;
    }
    if k < comps.len() {
        assert(cv[k as int] == comps@[k as int]@);
        let c = comps[k].copy();
        let mut one: Vec<Comparator> = Vec::new();
        one.push(c);
        assert(comps_view(one@) =~= seq![cv[k as int]]);
        return Ok(one);
    }
    let mut has_spec = false;
    let mut m: usize = 0;
    while m < comps.len()
        invariant
            m <= comps@.len(),
            cv == comps_view(comps@),
            has_spec == (exists|q: int| 0 <= q < m && #[trigger] cv[q].ver is Some),
        decreases comps@.len() - m,
    {
        assert(cv[m as int] == comps@[m as int]@);
        if !comps[m].is_any() {
            has_spec = true;
        }
        m = m + 1;
    }
    assert(has_spec == has_specific(cv));
    let mut out: Vec<Comparator> = Vec::new();
    let mut seen: Vec<Vec<char>> = Vec::new();
    let mut m: usize = 0;
    while m < comps.len()
        invariant
            m <= comps@.len(),
            cv == comps_view(comps@),
            comps_wf(comps@, o),
            comps_view(out@) == tidy(cv.take(m as int), has_spec),
            seen@.len() == out@.len(),
            forall|q: int| 0 <= q < seen@.len() ==> #[trigger] seen@[q]@ == comp_text(out@[q]@),
            comps_wf(out@, o),
        decreases comps@.len() - m,
    {
        let ghost d = comps_view(out@);
        assert(cv.take(m + 1).drop_last() =~= cv.take(m as int));
        assert(cv.take(m + 1).last() == cv[m as int]);
        assert(cv[m as int] == comps@[m as int]@);
        let skip_any = comps[m].is_any() && has_spec;
        if !skip_any {
            let mut key: Vec<char> = Vec::new();
            comps[m].push_text(&mut key);
            assert(key@ =~= comp_text(cv[m as int]));
            let dup = contains_text(&seen, &key);
            proof {
                if dup {
                    let q = choose|q: int| 0 <= q < seen@.len() && #[trigger] seen@[q]@ == key@;
                    assert(comp_text(d[q]) == comp_text(cv[m as int]));
                    assert(seen_text(d, comp_text(cv[m as int])));
                }
                if seen_text(d, comp_text(cv[m as int])) {
                    let q = choose|q: int| 0 <= q < d.len() && #[trigger] comp_text(d[q]) == comp_text(
                        cv[m as int],
                    );
                    assert(seen@[q]@ == key@);
                }
            }
            if !dup {
                seen.push(key);
                let c = comps[m].copy();
                out.push(c);
                assert(comps_view(out@) =~= d.push(cv[m as int]));
            }
        }
        m = m + 1;
    }
    assert(cv.take(cv.len() as int) =~= cv);
    Ok(out)
}

/// Rewrite an X-range (`1.2.x`, `>1`, `*`); `None` when the text is not
/// one.
pub fn replace_xrange(text: &str, options: Options) -> (r: Option<String>)
    ensures
        match xrange_text(text@, options) {
            None => r is None,
            Some(t) => r is Some && r->Some_0@ == t,
        },
{
    let chars = chars_of(text);
    match xrange_chars(&chars, options) {
        Some(t) => Some(string_of(&t)),
        None => None,
    }
}

// ── sets and ranges ─────────────────────────────────────────────────────
/// One `&&`-joined set of comparators.
#[derive(Debug, Clone, PartialEq)]
pub struct ComparatorSet(pub Vec<Comparator>);

impl View for ComparatorSet {
    type V = Seq<CompView>;

    open spec fn view(&self) -> Seq<CompView> {
        comps_view(self.0@)
    }
}

/// The views of a list of sets.
pub open spec fn sets_view(v: Seq<ComparatorSet>) -> Seq<Seq<CompView>> {
    v.map_values(|s: ComparatorSet| s@)
}

/// Every comparator of every set carries the options `o` and keeps its
/// numbers within `MAX_SAFE_INTEGER`.
pub open spec fn sets_wf(v: Seq<ComparatorSet>, o: Options) -> bool {
    forall|k: int| 0 <= k < v.len() ==> comps_wf((#[trigger] v[k]).0@, o)
}

/// A full range: comparator sets joined by `||`.
#[derive(Debug, Clone, PartialEq)]
pub struct Range {
    /// The `||`-separated alternatives; a version satisfies the range if
    /// it satisfies any one of them.
    pub set: Vec<ComparatorSet>,
    /// The options it was parsed with.
    pub options: Options,
    /// The trimmed input text.
    pub raw: String,
}

impl View for Range {
    type V = Seq<Seq<CompView>>;

    open spec fn view(&self) -> Seq<Seq<CompView>> {
        sets_view(self.set@)
    }
}

/// A comparator with a prerelease on the same `major.minor.patch` as
/// `v`: what lets a prerelease `v` satisfy a set.
pub open spec fn pre_anchor(c: CompView, v: VersionView) -> bool {
    match c.ver {
        Some(t) => t.pre.len() > 0 && t.major == v.major && t.minor == v.minor && t.patch
            == v.patch,
        None => false,
    }
}

/// Whether `v` satisfies a set: every comparator holds, and a
/// prerelease (unless prereleases are admitted) needs a comparator with a
/// prerelease on the same `major.minor.patch`.
pub open spec fn set_test(cs: Seq<CompView>, v: VersionView, o: Options) -> bool {
    &&& forall|k: int| 0 <= k < cs.len() ==> comp_test(#[trigger] cs[k], v)
    &&& (v.pre.len() > 0 && !o.include_prerelease) ==> exists|k: int|
        0 <= k < cs.len() && pre_anchor(#[trigger] cs[k], v)
}

/// Whether `v` satisfies a range: some set admits it.
pub open spec fn range_test(sets: Seq<Seq<CompView>>, v: VersionView, o: Options) -> bool {
    exists|k: int| 0 <= k < sets.len() && set_test(#[trigger] sets[k], v, o)
}

/// Whether a version satisfies a range does not depend on its build
/// metadata.
pub proof fn lemma_range_test_ignores_build(
    sets: Seq<Seq<CompView>>,
    a: VersionView,
    b: VersionView,
    o: Options,
)
    requires
        a.major == b.major,
        a.minor == b.minor,
        a.patch == b.patch,
        a.pre == b.pre,
    ensures
        range_test(sets, a, o) == range_test(sets, b, o),
{
    assert forall|k: int| 0 <= k < sets.len() implies set_test(#[trigger] sets[k], a, o) == set_test(
        sets[k],
        b,
        o,
    ) by {
        let cs = sets[k];
        assert forall|j: int| 0 <= j < cs.len() implies comp_test(#[trigger] cs[j], a) == comp_test(
            cs[j],
            b,
        ) by {
            if let Some(t) = cs[j].ver {
                crate::semver::lemma_build_ignored(a, b, t);
            }
        }
        assert forall|j: int| 0 <= j < cs.len() implies pre_anchor(#[trigger] cs[j], a) == pre_anchor(
            cs[j],
            b,
        ) by {}
    }
}

/// Texts joined with a separator.
pub open spec fn join_with(parts: Seq<Seq<char>>, sep: Seq<char>) -> Seq<char>
    decreases parts.len(),
{
    if parts.len() == 0 {
        Seq::empty()
    } else if parts.len() == 1 {
        parts[0]
    } else {
        join_with(parts.drop_last(), sep) + sep + parts.last()
    }
}

/// A set written out: its comparators joined by spaces.
pub open spec fn set_text(cs: Seq<CompView>) -> Seq<char> {
    join_with(cs.map_values(|c: CompView| comp_text(c)), seq![' '])
}

/// A range written out: its sets joined by `||`.
pub open spec fn range_text(sets: Seq<Seq<CompView>>) -> Seq<char> {
    join_with(sets.map_values(|cs: Seq<CompView>| set_text(cs)), seq!['|', '|'])
}

/// `<0.0.0-0`, which nothing satisfies.
pub open spec fn null_view() -> CompView {
    CompView {
        op: Op::Lt,
        ver: Some(
            VersionView {
                major: 0,
                minor: 0,
                patch: 0,
                pre: seq![IdentView::Num(0)],
                build: Seq::empty(),
            },
        ),
    }
}

/// The sets kept so far, whether an alternative was dropped, and a
/// set that nothing satisfies kept back in case nothing else appears.
pub struct RangeAcc {
    pub set: Seq<Seq<CompView>>,
    pub dropped: bool,
    pub pending: Option<Seq<CompView>>,
}

/// A set that is only `*`.
pub open spec fn is_any_set(cs: Seq<CompView>) -> bool {
    cs.len() == 1 && cs[0].ver is None
}

/// Take in one alternative. An unreadable one is fatal when it is
/// oversized or in strict mode, and dropped otherwise; `*` replaces
/// everything and then absorbs what follows; a set that nothing
/// satisfies is kept back while nothing else is present; anything else is
/// added, repeats included.
pub open spec fn alt_step(
    acc: core::result::Result<RangeAcc, SetErr>,
    alt: Seq<char>,
    o: Options,
) -> core::result::Result<RangeAcc, SetErr> {
    match acc {
        Err(e) => Err(e),
        Ok(a) => match comparator_set(alt, o) {
            Err(e) => if e is Oversized || !o.loose {
                Err(e)
            } else {
                Ok(RangeAcc { dropped: true, ..a })
            },
            Ok(cs) => if is_any_set(cs) {
                Ok(RangeAcc { set: seq![cs], ..a })
            } else if a.set.len() == 1 && is_any_set(a.set[0]) {
                Ok(a)
            } else if cs.len() == 1 && is_null_view(cs[0]) {
                if a.set.len() == 0 {
                    Ok(RangeAcc { pending: Some(cs), ..a })
                } else {
                    Ok(a)
                }
            } else {
                Ok(RangeAcc { set: a.set.push(cs), pending: None, ..a })
            },
        },
    }
}

/// Take in the alternatives from `i` on.
pub open spec fn alts_from(
    acc: core::result::Result<RangeAcc, SetErr>,
    alts: Seq<Seq<char>>,
    i: int,
    o: Options,
) -> core::result::Result<RangeAcc, SetErr>
    decreases alts.len() - i,
{
    if i < 0 || i >= alts.len() {
        acc
    } else {
        alts_from(alt_step(acc, alts[i], o), alts, i + 1, o)
    }
}

proof fn lemma_alts_err(e: SetErr, alts: Seq<Seq<char>>, i: int, o: Options)
    ensures
        alts_from(Err(e), alts, i, o) == Err::<RangeAcc, SetErr>(e),
    decreases alts.len() - i,
{
    if 0 <= i < alts.len() {
        lemma_alts_err(e, alts, i + 1, o);
    }
}

/// Why a range cannot be read.
pub enum RangeErr {
    /// One of its alternatives cannot be read, fatally.
    Alternative(SetErr),
    /// Every alternative was unreadable. Carries the input.
    NoAlternative(Seq<char>),
}

/// What a range text reads as: its trimmed text split on `||`, each
/// alternative taken in turn. When no set is left, the one kept back is
/// used, or the input is rejected if alternatives were dropped, or the
/// range is `<0.0.0-0`.
pub open spec fn range_parse(input: Seq<char>, o: Options) -> core::result::Result<
    Seq<Seq<CompView>>,
    RangeErr,
> {
    let start = RangeAcc { set: Seq::empty(), dropped: false, pending: None };
    match alts_from(Ok(start), bars(trim(input)), 0, o) {
        Err(e) => Err(RangeErr::Alternative(e)),
        Ok(a) => if a.set.len() > 0 {
            Ok(a.set)
        } else {
            match a.pending {
                Some(p) => Ok(seq![p]),
                None => if a.dropped {
                    Err(RangeErr::NoAlternative(input))
                } else {
                    Ok(seq![seq![null_view()]])
                },
            }
        },
    }
}

/// The error value for a range that cannot be read.
pub open spec fn range_error_is(e: Error, k: RangeErr) -> bool {
    match k {
        RangeErr::Alternative(s) => set_error_is(e, s),
        RangeErr::NoAlternative(t) => e matches Error::InvalidRange { input, reason } && input@
            == t && reason@ == "no usable alternative"@,
    }
}

spec fn pending_view(p: Option<ComparatorSet>) -> Option<Seq<CompView>> {
    match p {
        Some(s) => Some(s@),
        None => None,
    }
}

/// `<0.0.0-0`.
fn null_comparator(o: Options) -> (r: Comparator)
    ensures
        r@ == null_view(),
        r.options == o,
        comp_well_formed(r@),
        r.version matches Some(v) ==> v.options == o,
{
    let mut pre: Vec<Identifier> = Vec::new();
    pre.push(Identifier::Numeric(0));
    let v = SemVer {
        major: 0,
        minor: 0,
        patch: 0,
        prerelease: pre,
        build: Vec::new(),
        options: o,
    };
    assert(v@.pre =~= seq![IdentView::Num(0)]);
    assert(v@.build =~= Seq::<Seq<char>>::empty());
    Comparator { op: Op::Lt, version: Some(v), options: o }
}

impl ComparatorSet {
    /// Whether `version` satisfies every comparator, with the prerelease
    /// rule of [`set_test`].
    fn test(&self, version: &SemVer, options: Options) -> (r: bool)
        ensures
            r == set_test(self@, version@, options),
    {
        let ghost cv = self@;
        let mut i: usize = 0;
        while i < self.0.len()
            invariant
                i <= self.0@.len(),
                cv == comps_view(self.0@),
                forall|k: int| 0 <= k < i ==> comp_test(#[trigger] cv[k], version@),
            decreases self.0@.len() - i,
        {
            assert(cv[i as int] == self.0@[i as int]@);
            if !self.0[i].test(version) {
                return false;
            }
            i = i + 1;
        }
        if version.is_prerelease() && !options.include_prerelease {
            let mut j: usize = 0;
            while j < self.0.len()
                invariant
                    j <= self.0@.len(),
                    cv == comps_view(self.0@),
                    forall|k: int| 0 <= k < cv.len() ==> comp_test(#[trigger] cv[k], version@),
                    forall|k: int| 0 <= k < j ==> !pre_anchor(#[trigger] cv[k], version@),
                decreases self.0@.len() - j,
            {
                assert(cv[j as int] == self.0@[j as int]@);
                match &self.0[j].version {
                    Some(t) => {
                        if t.is_prerelease() && t.major == version.major && t.minor == version.minor
                            && t.patch == version.patch {
                            assert(pre_anchor(cv[j as int], version@));
                            return true;
                        }
                    },
                    None => {},
                }
                j = j + 1;
            }
            return false;
        }
        true
    }

    /// Append the set written out.
    pub fn push_text(&self, out: &mut Vec<char>)
        ensures
            final(out)@ == old(out)@ + set_text(self@),
    {
        let ghost texts = self@.map_values(|c: CompView| comp_text(c));
        let mut i: usize = 0;
        let ghost start = out@;
        while i < self.0.len()
            invariant
                i <= self.0@.len(),
                texts == self@.map_values(|c: CompView| comp_text(c)),
                self@ == comps_view(self.0@),
                out@ == start + join_with(texts.take(i as int), seq![' ']),
            decreases self.0@.len() - i,
        {
            let ghost before = out@;
            if i > 0 {
                out.push(' ');
            }
            self.0[i].push_text(out);
            proof {
                assert(texts[i as int] == comp_text(self.0@[i as int]@));
                let t = texts.take(i + 1);
                assert(t.drop_last() =~= texts.take(i as int));
                if i == 0 {
                    assert(out@ =~= start + join_with(t, seq![' ']));
                } else {
                    assert(out@ =~= start + join_with(t, seq![' ']));
                }
            }
            i = i + 1;
        }
        assert(texts.take(i as int) =~= texts);
    }

    /// The set written out: comparators joined by spaces.
    pub fn to_string(&self) -> (r: String)
        ensures
            r@ == set_text(self@),
    {
        let mut out: Vec<char> = Vec::new();
        self.push_text(&mut out);
        assert(out@ =~= set_text(self@));
        string_of(&out)
    }
}

impl Range {
    /// The options the range was parsed with.
    pub open spec fn opts(&self) -> Options {
        self.options
    }

    /// The trimmed text the range was parsed from.
    pub open spec fn raw_text(&self) -> Seq<char> {
        self.raw@
    }

    /// Parse a range expression, such as `^1.2.3` or `>=1.0.0 <2.0.0`.
    pub fn parse<O: IntoOptions>(input: &str, options: O) -> (r: Result<Range>)
        ensures
            match range_parse(input@, options.as_options()) {
                Ok(sets) => r is Ok && r->Ok_0@ == sets && r->Ok_0.opts() == options.as_options()
                    && r->Ok_0.raw_text() == trim(input@) && sets_wf(
                    r->Ok_0.set@,
                    options.as_options(),
                ),
                Err(k) => r is Err && range_error_is(r->Err_0, k),
            },
    {
        let o = options.into_options();
        let chars = chars_of(input);
        Range::parse_chars(&chars, o)
    }

    /// Parse a range held as characters.
    pub fn parse_chars(chars: &Vec<char>, o: Options) -> (r: Result<Range>)
        ensures
            match range_parse(chars@, o) {
                Ok(sets) => r is Ok && r->Ok_0@ == sets && r->Ok_0.opts() == o
                    && r->Ok_0.raw_text() == trim(chars@) && sets_wf(r->Ok_0.set@, o),
                Err(k) => r is Err && range_error_is(r->Err_0, k),
            },
    {
        let raw = trim_vec(chars);
        let alts = split_bars(&raw);
        let ghost av = bars(raw@);
        let ghost start = RangeAcc { set: Seq::empty(), dropped: false, pending: None };
        let ghost total = alts_from(Ok(start), av, 0, o);
        let mut set: Vec<ComparatorSet> = Vec::new();
        let mut dropped = false;
        let mut pending: Option<ComparatorSet> = None;
        let mut i: usize = 0;
        assert(sets_view(set@) =~= Seq::<Seq<CompView>>::empty());
        while i < alts.len()
            invariant
                i <= alts@.len(),
                pieces_view(alts@) == av,
                av == bars(trim(chars@)),
                total == alts_from(Ok(start), av, 0, o),
                start == (RangeAcc { set: Seq::empty(), dropped: false, pending: None }),
                alts_from(
                    Ok(
                        RangeAcc {
                            set: sets_view(set@),
                            dropped,
                            pending: pending_view(pending),
                        },
                    ),
                    av,
                    i as int,
                    o,
                ) == total,
                sets_wf(set@, o),
                pending matches Some(p) ==> comps_wf(p.0@, o),
            decreases alts@.len() - i,
        {
            let ghost a = RangeAcc {
                set: sets_view(set@),
                dropped,
                pending: pending_view(pending),
            };
            assert(av[i as int] == alts@[i as int]@);
            assert(alts_from(Ok(a), av, i as int, o) == alts_from(
                alt_step(Ok(a), av[i as int], o),
                av,
                i + 1,
                o,
            ));
            match comparator_set_exec(&alts[i], o) {
                Err((e, over)) => {
                    if over || !o.loose {
                        proof {
                            let k = comparator_set(av[i as int], o)->Err_0;
                            lemma_alts_err(k, av, i + 1, o);
                        }
                        return Err(e);
                    }
                    dropped = true;
                },
                Ok(cs) => {
                    let ghost cv = comps_view(cs@);
                    let is_any = cs.len() == 1 && cs[0].is_any();
                    assert(cs@.len() == 1 ==> cv[0] == cs@[0]@);
                    if is_any {
                        set = Vec::new();
                        set.push(ComparatorSet(cs));
                        assert(sets_view(set@) =~= seq![cv]);
                    } else if set.len() == 1 && set[0].0.len() == 1 && set[0].0[0].is_any() {
                        assert(sets_view(set@)[0] == set@[0]@);
                        assert(set@[0]@[0] == set@[0].0@[0]@);
                    } else {
                        proof {
                            if set@.len() == 1 {
                                assert(sets_view(set@)[0] == set@[0]@);
                                if set@[0]@.len() == 1 {
                                    assert(set@[0]@[0] == set@[0].0@[0]@);
                                }
                            }
                        }
                        let is_null = cs.len() == 1 && cs[0].is_null_set();
                        if is_null {
                            if set.len() == 0 {
                                pending = Some(ComparatorSet(cs));
                            }
                        } else {
                            pending = None;
                            let ghost before = sets_view(set@);
                            set.push(ComparatorSet(cs));
                            assert(sets_view(set@) =~= before.push(cv));
                        }
                    }
                },
            }
            i = i + 1;
        }
        if set.len() == 0 {
            match pending {
                Some(p) => {
                    let ghost pv = p@;
                    set.push(p);
                    assert(sets_view(set@) =~= seq![pv]);
                },
                None => {
                    if dropped {
                        return Err(
                            Error::InvalidRange {
                                input: string_of(chars),
                                reason: "no usable alternative",
                            },
                        );
                    }
                    let mut one: Vec<Comparator> = Vec::new();
                    one.push(null_comparator(o));
                    let ghost ov = comps_view(one@);
                    assert(ov =~= seq![null_view()]);
                    set.push(ComparatorSet(one));
                    assert(sets_view(set@) =~= seq![seq![null_view()]]);
                },
            }
        }
        Ok(Range { set, options: o, raw: string_of(&raw) })
    }

    /// Whether a version satisfies this range.
    pub fn test(&self, version: &SemVer) -> (r: bool)
        ensures
            r == range_test(self@, version@, self.opts()),
    {
        let ghost sv = self@;
        let mut i: usize = 0;
        while i < self.set.len()
            invariant
                i <= self.set@.len(),
                sv == sets_view(self.set@),
                forall|k: int| 0 <= k < i ==> !set_test(#[trigger] sv[k], version@, self.options),
            decreases self.set@.len() - i,
        {
            assert(sv[i as int] == self.set@[i as int]@);
            if self.set[i].test(version, self.options) {
                return true;
            }
            i = i + 1;
        }
        false
    }

    /// Whether a version string satisfies this range; `false` when it
    /// does not parse.
    pub fn test_str(&self, version: &str) -> (r: bool)
        ensures
            r == match parsed(version@, self.opts()) {
                Some(v) => range_test(self@, v, self.opts()),
                None => false,
            },
    {
        let chars = chars_of(version);
        match crate::semver::parse_chars(&chars, self.options) {
            Some(v) => self.test(&v),
            None => false,
        }
    }

    /// The trimmed input text this range was parsed from.
    pub fn raw(&self) -> (r: &str)
        ensures
            r@ == self.raw_text(),
    {
        self.raw.as_str()
    }

    /// The range written out: sets joined by `||`.
    pub fn to_string(&self) -> (r: String)
        ensures
            r@ == range_text(self@),
    {
        let ghost texts = self@.map_values(|cs: Seq<CompView>| set_text(cs));
        let mut out: Vec<char> = Vec::new();
        let mut i: usize = 0;
        while i < self.set.len()
            invariant
                i <= self.set@.len(),
                texts == self@.map_values(|cs: Seq<CompView>| set_text(cs)),
                self@ == sets_view(self.set@),
                out@ == join_with(texts.take(i as int), seq!['|', '|']),
            decreases self.set@.len() - i,
        {
            if i > 0 {
                out.push('|');
                out.push('|');
            }
            self.set[i].push_text(&mut out);
            proof {
                assert(texts[i as int] == set_text(self.set@[i as int]@));
                let t = texts.take(i + 1);
                assert(t.drop_last() =~= texts.take(i as int));
                assert(out@ =~= join_with(t, seq!['|', '|']));
            }
            i = i + 1;
        }
        assert(texts.take(i as int) =~= texts);
        string_of(&out)
    }
}

} // verus!
