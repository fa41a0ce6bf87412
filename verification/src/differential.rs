//! Generated inputs for checking this library against node-semver on
//! the same questions, and the tally of where their answers differ.
//!
//! A seeded xorshift generator draws versions (well-formed and malformed)
//! and ranges aimed at the edges of the grammar. Each generator is a
//! function of the generator's state, stated as a spec function that
//! returns the text and the next state.
use crate::constants::Options;
use crate::range::{range_parse, range_text};
use crate::semver::{parsed, render, ver_order};
use crate::text::{chars_of, chars_of_string, num_text, push_all, push_number, same_text, string_of};
use crate::{parse, satisfies, satisfies_spec, valid, valid_range};
use vstd::prelude::*;

verus! {

// ── the generator ───────────────────────────────────────────────────────
/// The multiplier of the output scrambling, also the seed used for zero.
pub open spec fn scramble_factor() -> u64 {
    0x2545F4914F6CDD1D
}

/// One xorshift step of the state.
pub open spec fn xorshift(x: u64) -> u64 {
    let a = x ^ (x >> 12u64);
    let b = a ^ (a << 25u64);
    b ^ (b >> 27u64)
}

/// The output for a state: the state times the factor, wrapping.
pub open spec fn scramble(x: u64) -> u64 {
    ((x as nat * scramble_factor() as nat) % 0x1_0000_0000_0000_0000) as u64
}

/// One draw: the output and the next state.
pub open spec fn draw(s: u64) -> (u64, u64) {
    (scramble(xorshift(s)), xorshift(s))
}

/// A number below `n` (zero without a draw when `n` is zero).
pub open spec fn below_spec(s: u64, n: nat) -> (nat, u64) {
    if n == 0 {
        (0, s)
    } else {
        ((draw(s).0 as nat) % n, draw(s).1)
    }
}

/// `true` with `pct` percent probability.
pub open spec fn chance_spec(s: u64, pct: nat) -> (bool, u64) {
    ((draw(s).0 as nat) % 100 < pct, draw(s).1)
}

/// A seeded pseudo-random generator, so that any run replays exactly.
pub struct Rng(pub u64);

impl Rng {
    /// A generator from a seed; zero is replaced by a fixed non-zero seed.
    pub fn new(seed: u64) -> (r: Rng)
        ensures
            r.0 == (if seed == 0 {
                scramble_factor()
            } else {
                seed
            }),
    {
        Rng(
            if seed == 0 {
                0x2545F4914F6CDD1D
            } else {
                seed
            },
        )
    }

    /// The next output.
    pub fn next(&mut self) -> (r: u64)
        ensures
            (r, final(self).0) == draw(old(self).0),
    {
        let mut x = self.0;
        x = x ^ (x >> 12u64);
        x = x ^ (x << 25u64);
        x = x ^ (x >> 27u64);
        self.0 = x;
        x.wrapping_mul(0x2545F4914F6CDD1D)
    }

    /// A number below `n`; zero when `n` is zero.
    pub fn below(&mut self, n: usize) -> (r: usize)
        ensures
            (r as nat, final(self).0) == below_spec(old(self).0, n as nat),
    {
        if n == 0 {
            0
        } else {
            let x = self.next();
            (x % (n as u64)) as usize
        }
    }

    /// `true` with `pct` percent probability.
    pub fn chance(&mut self, pct: u64) -> (r: bool)
        ensures
            (r, final(self).0) == chance_spec(old(self).0, pct as nat),
    {
        self.next() % 100 < pct
    }
}

// ── word lists ──────────────────────────────────────────────────────────
/// How many prerelease words there are.
pub open spec fn pre_word_count() -> nat {
    18
}

/// The prerelease words the generator picks from.
pub open spec fn pre_word_text(i: nat) -> Seq<char> {
    if i == 0 {
        "alpha"@
    } else if i == 1 {
        "beta"@
    } else if i == 2 {
        "rc"@
    } else if i == 3 {
        "pre"@
    } else if i == 4 {
        "dev"@
    } else if i == 5 {
        "canary"@
    } else if i == 6 {
        "next"@
    } else if i == 7 {
        "0"@
    } else if i == 8 {
        "1"@
    } else if i == 9 {
        "2"@
    } else if i == 10 {
        "10"@
    } else if i == 11 {
        "01"@
    } else if i == 12 {
        "a"@
    } else if i == 13 {
        "Z"@
    } else if i == 14 {
        "x-y"@
    } else if i == 15 {
        "-"@
    } else if i == 16 {
        "0a"@
    } else {
        "00"@
    }
}

/// How many build words there are.
pub open spec fn build_word_count() -> nat {
    8
}

/// The build words the generator picks from.
pub open spec fn build_word_text(i: nat) -> Seq<char> {
    if i == 0 {
        "build"@
    } else if i == 1 {
        "001"@
    } else if i == 2 {
        "sha"@
    } else if i == 3 {
        "deadbeef"@
    } else if i == 4 {
        "0"@
    } else if i == 5 {
        "x"@
    } else if i == 6 {
        "a-b"@
    } else {
        "20260731"@
    }
}

/// The word at `i` of the prerelease list.
pub fn pre_word(i: usize) -> (r: &'static str)
    ensures
        r@ == pre_word_text(i as nat),
{
    if i == 0 {
        "alpha"
    } else if i == 1 {
        "beta"
    } else if i == 2 {
        "rc"
    } else if i == 3 {
        "pre"
    } else if i == 4 {
        "dev"
    } else if i == 5 {
        "canary"
    } else if i == 6 {
        "next"
    } else if i == 7 {
        "0"
    } else if i == 8 {
        "1"
    } else if i == 9 {
        "2"
    } else if i == 10 {
        "10"
    } else if i == 11 {
        "01"
    } else if i == 12 {
        "a"
    } else if i == 13 {
        "Z"
    } else if i == 14 {
        "x-y"
    } else if i == 15 {
        "-"
    } else if i == 16 {
        "0a"
    } else {
        "00"
    }
}

/// The word at `i` of the build list.
pub fn build_word(i: usize) -> (r: &'static str)
    ensures
        r@ == build_word_text(i as nat),
{
    if i == 0 {
        "build"
    } else if i == 1 {
        "001"
    } else if i == 2 {
        "sha"
    } else if i == 3 {
        "deadbeef"
    } else if i == 4 {
        "0"
    } else if i == 5 {
        "x"
    } else if i == 6 {
        "a-b"
    } else {
        "20260731"
    }
}

// ── numbers ─────────────────────────────────────────────────────────────
/// A number aimed at the boundaries that matter: zero, one, small and
/// larger values, `MAX_SAFE_INTEGER` and one past it, a leading zero, and
/// `u32::MAX`.
#[verifier::opaque]
pub open spec fn number_spec(s: u64) -> (Seq<char>, u64) {
    let (k, s1) = below_spec(s, 10);
    if k == 0 {
        (num_text(0), s1)
    } else if k == 1 {
        (num_text(1), s1)
    } else if k == 2 {
        let (d, s2) = below_spec(s1, 10);
        (num_text(d), s2)
    } else if k == 3 {
        let (d, s2) = below_spec(s1, 1000);
        (num_text(d), s2)
    } else if k == 4 {
        let (x, s2) = draw(s1);
        (num_text((x % 1_000_000) as nat), s2)
    } else if k == 5 {
        (num_text(9007199254740991), s1)
    } else if k == 6 {
        (num_text(9007199254740992), s1)
    } else if k == 7 {
        let (d, s2) = below_spec(s1, 100);
        (seq!['0'] + num_text(d), s2)
    } else if k == 8 {
        (num_text(4294967295), s1)
    } else {
        let (x, s2) = draw(s1);
        (num_text((x % 100) as nat), s2)
    }
}

/// Append a generated number.
pub fn push_generated_number(out: &mut Vec<char>, rng: &mut Rng)
    ensures
        (final(out)@.skip(old(out)@.len() as int), final(rng).0) == number_spec(old(rng).0),
        final(out)@.take(old(out)@.len() as int) == old(out)@,
        final(out)@.len() >= old(out)@.len(),
{
    reveal(number_spec);
    let ghost start = out@;
    let k = rng.below(10);
    if k == 0 {
        push_number(out, 0);
    } else if k == 1 {
        push_number(out, 1);
    } else if k == 2 {
        let d = rng.below(10);
        push_number(out, d as u64);
    } else if k == 3 {
        let d = rng.below(1000);
        push_number(out, d as u64);
    } else if k == 4 {
        let x = rng.next();
        push_number(out, x % 1_000_000);
    } else if k == 5 {
        push_number(out, 9007199254740991);
    } else if k == 6 {
        push_number(out, 9007199254740992);
    } else if k == 7 {
        out.push('0');
        let d = rng.below(100);
        push_number(out, d as u64);
        assert(out@ =~= start + (seq!['0'] + num_text(d as nat)));
    } else if k == 8 {
        push_number(out, 4294967295);
    } else {
        let x = rng.next();
        push_number(out, x % 100);
    }
    assert(out@.take(start.len() as int) =~= start);
}

/// A generated number as text.
pub fn number(rng: &mut Rng) -> (r: String)
    ensures
        (r@, final(rng).0) == number_spec(old(rng).0),
{
    let mut out: Vec<char> = Vec::new();
    push_generated_number(&mut out, rng);
    assert(out@.skip(0) =~= out@);
    string_of(&out)
}

// ── versions ────────────────────────────────────────────────────────────
/// `n` words picked from the prerelease list (or the build list), joined
/// by `.`.
pub open spec fn pick_words(s: u64, n: nat, pre: bool) -> (Seq<char>, u64)
    decreases n,
{
    if n == 0 {
        (Seq::empty(), s)
    } else {
        let (w, s1) = pick_words(s, (n - 1) as nat, pre);
        let (k, s2) = below_spec(
            s1,
            if pre {
                pre_word_count()
            } else {
                build_word_count()
            },
        );
        let word = if pre {
            pre_word_text(k)
        } else {
            build_word_text(k)
        };
        (
            if n == 1 {
                word
            } else {
                w + seq!['.'] + word
            },
            s2,
        )
    }
}

/// Three numbers joined by `.`.
pub open spec fn triple_spec(s: u64) -> (Seq<char>, u64) {
    let (a, s1) = number_spec(s);
    let (b, s2) = number_spec(s1);
    let (c, s3) = number_spec(s2);
    (a + seq!['.'] + b + seq!['.'] + c, s3)
}

/// Three numbers, a prerelease of one to three words 40% of the time,
/// then a build of one or two words 25% of the time.
pub open spec fn tagged_spec(s: u64) -> (Seq<char>, u64) {
    let (v0, s3) = triple_spec(s);
    let (has_pre, s4) = chance_spec(s3, 40);
    let (v1, s5) = if has_pre {
        let (n, t) = below_spec(s4, 3);
        let (w, t2) = pick_words(t, n + 1, true);
        (v0 + seq!['-'] + w, t2)
    } else {
        (v0, s4)
    };
    let (has_build, s6) = chance_spec(s5, 25);
    if has_build {
        let (n, t) = below_spec(s6, 2);
        let (w, t2) = pick_words(t, n + 1, false);
        (v1 + seq!['+'] + w, t2)
    } else {
        (v1, s6)
    }
}

/// A well-formed version: a tagged version, then sometimes a `v`, `=` or
/// `V` prefix or surrounding spaces, which only loose mode tolerates.
#[verifier::opaque]
pub open spec fn valid_version_spec(s: u64) -> (Seq<char>, u64) {
    let (v2, s7) = tagged_spec(s);
    let (k, s8) = below_spec(s7, 12);
    (
        if k == 0 {
            seq!['v'] + v2
        } else if k == 1 {
            seq!['='] + v2
        } else if k == 2 {
            seq![' '] + v2 + seq![' ']
        } else if k == 3 {
            seq!['V'] + v2
        } else {
            v2
        },
        s8,
    )
}

/// Append `n` picked words joined by `.`.
fn push_words(out: &mut Vec<char>, rng: &mut Rng, n: usize, pre: bool)
    ensures
        (final(out)@.skip(old(out)@.len() as int), final(rng).0) == pick_words(
            old(rng).0,
            n as nat,
            pre,
        ),
        final(out)@.take(old(out)@.len() as int) == old(out)@,
        final(out)@.len() >= old(out)@.len(),
{
    let ghost start = out@;
    let ghost s0 = rng.0;
    let mut i: usize = 0;
    assert(out@.skip(start.len() as int) =~= Seq::<char>::empty());
    while i < n
        invariant
            i <= n,
            out@.take(start.len() as int) == start,
            out@.len() >= start.len(),
            (out@.skip(start.len() as int), rng.0) == pick_words(s0, i as nat, pre),
        decreases n - i,
    {
        let ghost before = out@;
        if i > 0 {
            out.push('.');
        }
        let w = if pre {
            let k = rng.below(18);
            pre_word(k)
        } else {
            let k = rng.below(8);
            build_word(k)
        };
        let wc = chars_of(w);
        push_all(out, &wc);
        proof {
            let (pw, ps) = pick_words(s0, i as nat, pre);
            assert(before.skip(start.len() as int) == pw);
            if i == 0 {
                assert(out@.skip(start.len() as int) =~= wc@);
            } else {
                assert(out@.skip(start.len() as int) =~= pw + seq!['.'] + wc@);
            }
            assert(out@.take(start.len() as int) =~= start);
        }
        i = i + 1;
    }
}

/// A generated piece appended to `before` gives `before + piece`.
proof fn lemma_appended(before: Seq<char>, after: Seq<char>, piece: Seq<char>)
    requires
        after.len() >= before.len(),
        after.take(before.len() as int) == before,
        after.skip(before.len() as int) == piece,
    ensures
        after == before + piece,
{
    assert(after =~= after.take(before.len() as int) + after.skip(before.len() as int));
}

/// Three generated numbers joined by `.`.
fn triple(rng: &mut Rng) -> (v: Vec<char>)
    ensures
        (v@, final(rng).0) == triple_spec(old(rng).0),
{
    let ghost s0 = rng.0;
    let mut v: Vec<char> = Vec::new();
    let ghost (a, s1) = number_spec(s0);
    push_generated_number(&mut v, rng);
    proof {
        lemma_appended(Seq::empty(), v@, a);
    }
    v.push('.');
    let ghost v_a = v@;
    let ghost (b, s2) = number_spec(s1);
    push_generated_number(&mut v, rng);
    proof {
        lemma_appended(v_a, v@, b);
    }
    v.push('.');
    let ghost v_b = v@;
    push_generated_number(&mut v, rng);
    proof {
        let (c, s3) = number_spec(s2);
        lemma_appended(v_b, v@, c);
        assert(v@ =~= a + seq!['.'] + b + seq!['.'] + c);
    }
    v
}

/// A generated version with its optional prerelease and build.
fn tagged(rng: &mut Rng) -> (v: Vec<char>)
    ensures
        (v@, final(rng).0) == tagged_spec(old(rng).0),
{
    let ghost s0 = rng.0;
    let mut v = triple(rng);
    let ghost v0 = v@;
    let has_pre = rng.chance(40);
    if has_pre {
        v.push('-');
        let ghost v_dash = v@;
        let n = rng.below(3);
        let ghost t = rng.0;
        push_words(&mut v, rng, n + 1, true);
        proof {
            let (w, t2) = pick_words(t, (n + 1) as nat, true);
            lemma_appended(v_dash, v@, w);
            assert(v@ =~= v0 + seq!['-'] + w);
        }
    }
    let ghost v1 = v@;
    let has_build = rng.chance(25);
    if has_build {
        v.push('+');
        let ghost v_plus = v@;
        let n = rng.below(2);
        let ghost t = rng.0;
        push_words(&mut v, rng, n + 1, false);
        proof {
            let (w, t2) = pick_words(t, (n + 1) as nat, false);
            lemma_appended(v_plus, v@, w);
            assert(v@ =~= v1 + seq!['+'] + w);
        }
    }
    v
}

/// Append a generated well-formed version.
fn push_valid_version(out: &mut Vec<char>, rng: &mut Rng)
    ensures
        (final(out)@.skip(old(out)@.len() as int), final(rng).0) == valid_version_spec(old(rng).0),
        final(out)@.take(old(out)@.len() as int) == old(out)@,
        final(out)@.len() >= old(out)@.len(),
{
    let ghost start = out@;
    let ghost s0 = rng.0;
    let v = tagged(rng);
    let ghost v2 = v@;
    let k = rng.below(12);
    if k == 0 {
        out.push('v');
        push_all(out, &v);
        assert(out@ =~= start + (seq!['v'] + v2));
    } else if k == 1 {
        out.push('=');
        push_all(out, &v);
        assert(out@ =~= start + (seq!['='] + v2));
    } else if k == 2 {
        out.push(' ');
        push_all(out, &v);
        out.push(' ');
        assert(out@ =~= start + (seq![' '] + v2 + seq![' ']));
    } else if k == 3 {
        out.push('V');
        push_all(out, &v);
        assert(out@ =~= start + (seq!['V'] + v2));
    } else {
        push_all(out, &v);
        assert(out@ =~= start + v2);
    }
    proof {
        reveal(valid_version_spec);
        let r = valid_version_spec(s0);
        assert(out@.skip(start.len() as int) == r.0);
        assert(out@.take(start.len() as int) =~= start);
    }
}

/// A generated well-formed version as text.
pub fn valid_version(rng: &mut Rng) -> (r: String)
    ensures
        (r@, final(rng).0) == valid_version_spec(old(rng).0),
{
    let mut out: Vec<char> = Vec::new();
    push_valid_version(&mut out, rng);
    assert(out@.skip(0) =~= out@);
    string_of(&out)
}

// ── malformed versions ──────────────────────────────────────────────────
/// The character a corrupted version gets.
pub open spec fn corrupt_char(k: nat) -> char {
    if k == 0 {
        '!'
    } else if k == 1 {
        '@'
    } else if k == 2 {
        ' '
    } else if k == 3 {
        '.'
    } else if k == 4 {
        '-'
    } else if k == 5 {
        '+'
    } else {
        '~'
    }
}

/// `n` copies of `c`.
pub open spec fn repeat(c: char, n: nat) -> Seq<char> {
    Seq::new(n, |i: int| c)
}

/// Malformed input aimed at the edges of the grammar: fixed texts, long
/// runs, or a well-formed version with one character replaced.
pub open spec fn invalid_version_spec(s: u64) -> (Seq<char>, u64) {
    let (k, s1) = below_spec(s, 16);
    if k == 0 {
        (Seq::empty(), s1)
    } else if k == 1 {
        ("1"@, s1)
    } else if k == 2 {
        ("1.2"@, s1)
    } else if k == 3 {
        ("1.2.3.4"@, s1)
    } else if k == 4 {
        ("a.b.c"@, s1)
    } else if k == 5 {
        ("1.2.3-"@, s1)
    } else if k == 6 {
        ("1.2.3+"@, s1)
    } else if k == 7 {
        ("1.2.3-+"@, s1)
    } else if k == 8 {
        ("-1.2.3"@, s1)
    } else if k == 9 {
        ("1.-2.3"@, s1)
    } else if k == 10 {
        ("1.2.3-alpha..1"@, s1)
    } else if k == 11 {
        (repeat('9', 30) + ".0.0"@, s1)
    } else if k == 12 {
        (repeat('x', 300), s1)
    } else if k == 13 {
        ("1.2.3-"@ + repeat('a', 300), s1)
    } else if k == 14 {
        ("1.2.3 4.5.6"@, s1)
    } else {
        let (v, s2) = valid_version_spec(s1);
        if v.len() > 0 {
            let (i, s3) = below_spec(s2, v.len());
            let (c, s4) = below_spec(s3, 7);
            (v.update(i as int, corrupt_char(c)), s4)
        } else {
            (v, s2)
        }
    }
}

fn push_lit(out: &mut Vec<char>, lit: &str)
    ensures
        final(out)@ == old(out)@ + lit@,
{
    let c = chars_of(lit);
    push_all(out, &c);
}

fn push_repeat(out: &mut Vec<char>, c: char, n: usize)
    ensures
        final(out)@ == old(out)@ + repeat(c, n as nat),
{
    let ghost start = out@;
    let mut i: usize = 0;
    while i < n
        invariant
            i <= n,
            out@ == start + repeat(c, i as nat),
        decreases n - i,
    {
        out.push(c);
        assert(out@ =~= start + repeat(c, (i + 1) as nat));
        i = i + 1;
    }
}

/// A generated malformed version as text.
pub fn invalid_version(rng: &mut Rng) -> (r: String)
    ensures
        (r@, final(rng).0) == invalid_version_spec(old(rng).0),
{
    let mut out: Vec<char> = Vec::new();
    let k = rng.below(16);
    if k == 0 {
    } else if k == 1 {
        push_lit(&mut out, "1");
    } else if k == 2 {
        push_lit(&mut out, "1.2");
    } else if k == 3 {
        push_lit(&mut out, "1.2.3.4");
    } else if k == 4 {
        push_lit(&mut out, "a.b.c");
    } else if k == 5 {
        push_lit(&mut out, "1.2.3-");
    } else if k == 6 {
        push_lit(&mut out, "1.2.3+");
    } else if k == 7 {
        push_lit(&mut out, "1.2.3-+");
    } else if k == 8 {
        push_lit(&mut out, "-1.2.3");
    } else if k == 9 {
        push_lit(&mut out, "1.-2.3");
    } else if k == 10 {
        push_lit(&mut out, "1.2.3-alpha..1");
    } else if k == 11 {
        push_repeat(&mut out, '9', 30);
        push_lit(&mut out, ".0.0");
    } else if k == 12 {
        push_repeat(&mut out, 'x', 300);
    } else if k == 13 {
        push_lit(&mut out, "1.2.3-");
        push_repeat(&mut out, 'a', 300);
    } else if k == 14 {
        push_lit(&mut out, "1.2.3 4.5.6");
    } else {
        push_valid_version(&mut out, rng);
        assert(out@.skip(0) =~= out@);
        if out.len() > 0 {
            let i = rng.below(out.len());
            let c = rng.below(7);
            let ch = if c == 0 {
                '!'
            } else if c == 1 {
                '@'
            } else if c == 2 {
                ' '
            } else if c == 3 {
                '.'
            } else if c == 4 {
                '-'
            } else if c == 5 {
                '+'
            } else {
                '~'
            };
            out.set(i, ch);
        }
    }
    proof {
        let r = invalid_version_spec(old(rng).0);
        assert(out@ =~= r.0);
    }
    string_of(&out)
}

/// A version: well-formed 70% of the time, malformed otherwise.
pub open spec fn version_spec(s: u64) -> (Seq<char>, u64) {
    let (c, s1) = chance_spec(s, 70);
    if c {
        valid_version_spec(s1)
    } else {
        invalid_version_spec(s1)
    }
}

/// A generated version, well-formed or not, as text.
pub fn version(rng: &mut Rng) -> (r: String)
    ensures
        (r@, final(rng).0) == version_spec(old(rng).0),
{
    if rng.chance(70) {
        valid_version(rng)
    } else {
        invalid_version(rng)
    }
}

// ── ranges ──────────────────────────────────────────────────────────────
/// The partial version of one comparator, drawn after the well-formed
/// version `v`: a bare number, `a.b`, `a.b.x`, `a.x`, `*`, or `v` itself.
#[verifier::opaque]
pub open spec fn partial_spec(s: u64, v: Seq<char>) -> (Seq<char>, u64) {
    let (k, s1) = below_spec(s, 6);
    if k == 0 {
        number_spec(s1)
    } else if k == 1 {
        let (a, t) = number_spec(s1);
        let (b, t2) = number_spec(t);
        (a + seq!['.'] + b, t2)
    } else if k == 2 {
        let (a, t) = number_spec(s1);
        let (b, t2) = number_spec(t);
        (a + seq!['.'] + b + seq!['.', 'x'], t2)
    } else if k == 3 {
        let (a, t) = number_spec(s1);
        (a + seq!['.', 'x'], t)
    } else if k == 4 {
        (seq!['*'], s1)
    } else {
        (v, s1)
    }
}

/// One comparator: a partial version with one of the sugars or operators
/// in front, or a hyphen range to another well-formed version.
#[verifier::opaque]
pub open spec fn one_spec(s: u64) -> (Seq<char>, u64) {
    let (v, s1) = valid_version_spec(s);
    let (p, s2) = partial_spec(s1, v);
    let (m, s3) = below_spec(s2, 10);
    if m == 0 {
        (seq!['^'] + p, s3)
    } else if m == 1 {
        (seq!['~'] + p, s3)
    } else if m == 2 {
        (seq!['>', '='] + p, s3)
    } else if m == 3 {
        (seq!['<', '='] + p, s3)
    } else if m == 4 {
        (seq!['>'] + p, s3)
    } else if m == 5 {
        (seq!['<'] + p, s3)
    } else if m == 6 {
        (seq!['='] + p, s3)
    } else if m == 7 {
        let (w, s4) = valid_version_spec(s3);
        (p + seq![' ', '-', ' '] + w, s4)
    } else if m == 8 {
        (p, s3)
    } else {
        (seq!['~', '>'] + p, s3)
    }
}

/// `n` comparators joined by spaces.
pub open spec fn set_spec(s: u64, n: nat) -> (Seq<char>, u64)
    decreases n,
{
    if n == 0 {
        (Seq::empty(), s)
    } else {
        let (w, s1) = set_spec(s, (n - 1) as nat);
        let (c, s2) = one_spec(s1);
        (
            if n == 1 {
                c
            } else {
                w + seq![' '] + c
            },
            s2,
        )
    }
}

/// `n` comparator sets, each of one or two comparators, joined by ` || `.
pub open spec fn sets_spec(s: u64, n: nat) -> (Seq<char>, u64)
    decreases n,
{
    if n == 0 {
        (Seq::empty(), s)
    } else {
        let (w, s1) = sets_spec(s, (n - 1) as nat);
        let (c, s2) = below_spec(s1, 2);
        let (set, s3) = set_spec(s2, c + 1);
        (
            if n == 1 {
                set
            } else {
                w + seq![' ', '|', '|', ' '] + set
            },
            s3,
        )
    }
}

/// A range expression of one to three comparator sets.
pub open spec fn range_spec(s: u64) -> (Seq<char>, u64) {
    let (n, s1) = below_spec(s, 3);
    sets_spec(s1, n + 1)
}

/// Append a generated partial version.
fn push_partial(out: &mut Vec<char>, rng: &mut Rng, v: &Vec<char>)
    ensures
        (final(out)@.skip(old(out)@.len() as int), final(rng).0) == partial_spec(old(rng).0, v@),
        final(out)@.take(old(out)@.len() as int) == old(out)@,
        final(out)@.len() >= old(out)@.len(),
{
    let ghost start = out@;
    let ghost s0 = rng.0;
    let k = rng.below(6);
    let ghost s1 = rng.0;
    if k == 0 {
        push_generated_number(out, rng);
    } else if k == 1 || k == 2 {
        let ghost (a, t) = number_spec(s1);
        push_generated_number(out, rng);
        proof {
            lemma_appended(start, out@, a);
        }
        out.push('.');
        let ghost mid = out@;
        let ghost (b, t2) = number_spec(t);
        push_generated_number(out, rng);
        proof {
            lemma_appended(mid, out@, b);
        }
        if k == 2 {
            out.push('.');
            out.push('x');
            assert(out@ =~= start + (a + seq!['.'] + b + seq!['.', 'x']));
        } else {
            assert(out@ =~= start + (a + seq!['.'] + b));
        }
    } else if k == 3 {
        let ghost (a, t) = number_spec(s1);
        push_generated_number(out, rng);
        proof {
            lemma_appended(start, out@, a);
        }
        out.push('.');
        out.push('x');
        assert(out@ =~= start + (a + seq!['.', 'x']));
    } else if k == 4 {
        out.push('*');
        assert(out@ =~= start + seq!['*']);
    } else {
        push_all(out, v);
    }
    proof {
        reveal(partial_spec);
        let r = partial_spec(s0, v@);
        if k != 0 {
            assert(out@.skip(start.len() as int) =~= r.0);
        }
        assert(out@.take(start.len() as int) =~= start);
    }
}

/// Append one generated comparator.
fn push_one(out: &mut Vec<char>, rng: &mut Rng)
    ensures
        (final(out)@.skip(old(out)@.len() as int), final(rng).0) == one_spec(old(rng).0),
        final(out)@.take(old(out)@.len() as int) == old(out)@,
        final(out)@.len() >= old(out)@.len(),
{
    let ghost start = out@;
    let ghost s0 = rng.0;
    let mut v: Vec<char> = Vec::new();
    push_valid_version(&mut v, rng);
    assert(v@.skip(0) =~= v@);
    let mut p: Vec<char> = Vec::new();
    push_partial(&mut p, rng, &v);
    assert(p@.skip(0) =~= p@);
    let ghost pv = p@;
    let m = rng.below(10);
    if m == 0 {
        out.push('^');
    } else if m == 1 {
        out.push('~');
    } else if m == 2 {
        out.push('>');
        out.push('=');
    } else if m == 3 {
        out.push('<');
        out.push('=');
    } else if m == 4 {
        out.push('>');
    } else if m == 5 {
        out.push('<');
    } else if m == 6 {
        out.push('=');
    } else if m == 9 {
        out.push('~');
        out.push('>');
    }
    let ghost head = out@;
    push_all(out, &p);
    if m == 7 {
        out.push(' ');
        out.push('-');
        out.push(' ');
        let ghost mid = out@;
        let ghost s3 = rng.0;
        push_valid_version(out, rng);
        proof {
            let (w, s4) = valid_version_spec(s3);
            lemma_appended(mid, out@, w);
            assert(out@ =~= start + (pv + seq![' ', '-', ' '] + w));
        }
    }
    proof {
        reveal(one_spec);
        let r = one_spec(s0);
        assert(out@.skip(start.len() as int) =~= r.0);
        assert(out@.take(start.len() as int) =~= start);
    }
}

/// A generated range expression as text.
pub fn range(rng: &mut Rng) -> (r: String)
    ensures
        (r@, final(rng).0) == range_spec(old(rng).0),
{
    let ghost s0 = rng.0;
    let n = rng.below(3);
    let ghost s1 = rng.0;
    let mut out: Vec<char> = Vec::new();
    let mut i: usize = 0;
    while i < n + 1
        invariant
            i <= n + 1,
            n < 3,
            (out@, rng.0) == sets_spec(s1, i as nat),
        decreases n + 1 - i,
    {
        let ghost before = out@;
        if i > 0 {
            out.push(' ');
            out.push('|');
            out.push('|');
            out.push(' ');
        }
        let ghost sep = out@;
        let c = rng.below(2);
        let mut j: usize = 0;
        let ghost s2 = rng.0;
        while j < c + 1
            invariant
                j <= c + 1,
                c < 2,
                out@.len() >= sep.len(),
                out@.take(sep.len() as int) == sep,
                (out@.skip(sep.len() as int), rng.0) == set_spec(s2, j as nat),
            decreases c + 1 - j,
        {
            let ghost set_before = out@;
            if j > 0 {
                out.push(' ');
            }
            let ghost mid = out@;
            let ghost s_mid = rng.0;
            push_one(&mut out, rng);
            proof {
                let (cc, t) = one_spec(s_mid);
                lemma_appended(mid, out@, cc);
                let (w, t0) = set_spec(s2, j as nat);
                assert(set_before.skip(sep.len() as int) == w);
                lemma_appended(sep, set_before, w);
                if j == 0 {
                    assert(out@.skip(sep.len() as int) =~= cc);
                } else {
                    assert(out@.skip(sep.len() as int) =~= w + seq![' '] + cc);
                }
                assert(out@.take(sep.len() as int) =~= sep);
            }
            j = j + 1;
        }
        proof {
            let (set, t) = set_spec(s2, (c + 1) as nat);
            lemma_appended(sep, out@, set);
            if i == 0 {
                assert(out@ =~= set);
            } else {
                assert(out@ =~= before + seq![' ', '|', '|', ' '] + set);
            }
        }
        i = i + 1;
    }
    string_of(&out)
}

// ── queries and answers ─────────────────────────────────────────────────
/// One question for both implementations: whether a version is valid,
/// how two versions compare, whether a range is valid, or whether a
/// version satisfies a range.
pub enum Query {
    Valid { v: String, loose: bool },
    Compare { a: String, b: String, loose: bool },
    ValidRange { r: String, loose: bool, ip: bool },
    Satisfies { v: String, r: String, loose: bool, ip: bool },
}

/// A query with its texts as character sequences.
pub enum QueryView {
    Valid { v: Seq<char>, loose: bool },
    Compare { a: Seq<char>, b: Seq<char>, loose: bool },
    ValidRange { r: Seq<char>, loose: bool, ip: bool },
    Satisfies { v: Seq<char>, r: Seq<char>, loose: bool, ip: bool },
}

impl View for Query {
    type V = QueryView;

    open spec fn view(&self) -> QueryView {
        match self {
            Query::Valid { v, loose } => QueryView::Valid { v: v@, loose: *loose },
            Query::Compare { a, b, loose } => QueryView::Compare { a: a@, b: b@, loose: *loose },
            Query::ValidRange { r, loose, ip } => QueryView::ValidRange {
                r: r@,
                loose: *loose,
                ip: *ip,
            },
            Query::Satisfies { v, r, loose, ip } => QueryView::Satisfies {
                v: v@,
                r: r@,
                loose: *loose,
                ip: *ip,
            },
        }
    }
}

/// An answer: `Null` where the input was rejected, else a flag, a text or
/// a number.
pub enum Answer {
    Null,
    Bool(bool),
    Str(String),
    Int(i64),
}

/// An answer with its text as a character sequence.
pub enum AnswerView {
    Null,
    Bool(bool),
    Str(Seq<char>),
    Int(i64),
}

impl View for Answer {
    type V = AnswerView;

    open spec fn view(&self) -> AnswerView {
        match self {
            Answer::Null => AnswerView::Null,
            Answer::Bool(b) => AnswerView::Bool(*b),
            Answer::Str(s) => AnswerView::Str(s@),
            Answer::Int(i) => AnswerView::Int(*i),
        }
    }
}

/// The options of a query's flags.
pub open spec fn flags(loose: bool, ip: bool) -> Options {
    Options { loose, include_prerelease: ip }
}

/// One query: loose mode half of the time and prereleases included a
/// quarter of the time; then a quarter of the queries ask whether a range
/// is valid; of the rest, a fifth ask whether a version satisfies a range,
/// and of the others 60% ask whether a version is valid and the rest
/// compare two versions.
pub open spec fn query_spec(s: u64) -> (QueryView, u64) {
    let (loose, s1) = chance_spec(s, 50);
    let (ip, s2) = chance_spec(s1, 25);
    let (is_range, s3) = chance_spec(s2, 25);
    if is_range {
        let (r, s4) = range_spec(s3);
        (QueryView::ValidRange { r, loose, ip }, s4)
    } else {
        let (is_sat, s4) = chance_spec(s3, 20);
        if is_sat {
            let (r, s5) = range_spec(s4);
            let (v, s6) = version_spec(s5);
            (QueryView::Satisfies { v, r, loose, ip }, s6)
        } else {
            let (is_valid, s5) = chance_spec(s4, 60);
            if is_valid {
                let (v, s6) = version_spec(s5);
                (QueryView::Valid { v, loose }, s6)
            } else {
                let (a, s6) = version_spec(s5);
                let (b, s7) = version_spec(s6);
                (QueryView::Compare { a, b, loose }, s7)
            }
        }
    }
}

/// A generated query.
pub fn query(rng: &mut Rng) -> (q: Query)
    ensures
        (q@, final(rng).0) == query_spec(old(rng).0),
{
    let loose = rng.chance(50);
    let ip = rng.chance(25);
    if rng.chance(25) {
        let r = range(rng);
        return Query::ValidRange { r, loose, ip };
    }
    if rng.chance(20) {
        let r = range(rng);
        let v = version(rng);
        return Query::Satisfies { v, r, loose, ip };
    }
    if rng.chance(60) {
        let v = version(rng);
        Query::Valid { v, loose }
    } else {
        let a = version(rng);
        let b = version(rng);
        Query::Compare { a, b, loose }
    }
}

/// What this library answers to a query: the canonical form of a valid
/// version or range, the precedence of two valid versions as -1, 0 or 1,
/// whether a version satisfies a range, and `Null` where an input is
/// rejected.
pub open spec fn local_answer(q: QueryView) -> AnswerView {
    match q {
        QueryView::Valid { v, loose } => match parsed(v, flags(loose, false)) {
            Some(x) => AnswerView::Str(render(x)),
            None => AnswerView::Null,
        },
        QueryView::Compare { a, b, loose } => match (
            parsed(a, flags(loose, false)),
            parsed(b, flags(loose, false)),
        ) {
            (Some(x), Some(y)) => AnswerView::Int(ver_order(x, y) as i64),
            _ => AnswerView::Null,
        },
        QueryView::ValidRange { r, loose, ip } => match range_parse(r, flags(loose, ip)) {
            Ok(sets) => AnswerView::Str(range_text(sets)),
            Err(_) => AnswerView::Null,
        },
        QueryView::Satisfies { v, r, loose, ip } => AnswerView::Bool(
            satisfies_spec(v, r, flags(loose, ip)),
        ),
    }
}

/// This library's answer to a query.
pub fn answer(q: &Query) -> (a: Answer)
    ensures
        a@ == local_answer(q@),
{
    match q {
        Query::Valid { v, loose } => match valid(v.as_str(), *loose) {
            Some(s) => Answer::Str(s),
            None => Answer::Null,
        },
        Query::Compare { a, b, loose } => match (parse(a.as_str(), *loose), parse(b.as_str(), *loose)) {
            (Some(x), Some(y)) => Answer::Int(x.order(&y) as i64),
            _ => Answer::Null,
        },
        Query::ValidRange { r, loose, ip } => {
            let o = Options { loose: *loose, include_prerelease: *ip };
            match valid_range(r.as_str(), o) {
                Some(s) => Answer::Str(s),
                None => Answer::Null,
            }
        },
        Query::Satisfies { v, r, loose, ip } => {
            let o = Options { loose: *loose, include_prerelease: *ip };
            Answer::Bool(satisfies(v.as_str(), r.as_str(), o))
        },
    }
}

/// `n` queries drawn one after another.
pub open spec fn batch_spec(s: u64, n: nat) -> (Seq<QueryView>, u64)
    decreases n,
{
    if n == 0 {
        (Seq::empty(), s)
    } else {
        let (qs, s1) = batch_spec(s, (n - 1) as nat);
        let (q, s2) = query_spec(s1);
        (qs.push(q), s2)
    }
}

/// The views of a list of queries.
pub open spec fn queries_view(qs: Seq<Query>) -> Seq<QueryView> {
    qs.map_values(|q: Query| q@)
}

/// A batch of `n` generated queries with this library's answers, in the
/// same order.
pub fn batch(rng: &mut Rng, n: usize) -> (r: (Vec<Query>, Vec<Answer>))
    ensures
        (queries_view(r.0@), final(rng).0) == batch_spec(old(rng).0, n as nat),
        r.1@.len() == n,
        forall|i: int| 0 <= i < n ==> #[trigger] r.1@[i]@ == local_answer(r.0@[i]@),
{
    let ghost s0 = rng.0;
    let mut qs: Vec<Query> = Vec::new();
    let mut xs: Vec<Answer> = Vec::new();
    let mut i: usize = 0;
    while i < n
        invariant
            i <= n,
            (queries_view(qs@), rng.0) == batch_spec(s0, i as nat),
            qs@.len() == i,
            xs@.len() == i,
            forall|j: int| 0 <= j < i ==> #[trigger] xs@[j]@ == local_answer(qs@[j]@),
        decreases n - i,
    {
        let q = query(rng);
        let x = answer(&q);
        let ghost before = qs@;
        qs.push(q);
        xs.push(x);
        proof {
            assert(queries_view(qs@) =~= queries_view(before).push(qs@[i as int]@));
        }
        i = i + 1;
    }
    (qs, xs)
}

/// Whether two answers are the same.
pub fn same_answer(a: &Answer, b: &Answer) -> (r: bool)
    ensures
        r == (a@ == b@),
{
    match (a, b) {
        (Answer::Null, Answer::Null) => true,
        (Answer::Bool(x), Answer::Bool(y)) => *x == *y,
        (Answer::Int(x), Answer::Int(y)) => *x == *y,
        (Answer::Str(x), Answer::Str(y)) => {
            let p = chars_of_string(x);
            let q = chars_of_string(y);
            same_text(&p, &q)
        },
        _ => false,
    }
}

// ── the tally ───────────────────────────────────────────────────────────
/// How many divergences are kept for display; the count is what matters,
/// and an unbounded list would exhaust memory.
pub const SHOWN_LIMIT: usize = 20;

/// Counts of the answers compared so far.
pub struct Tally {
    /// Answers compared.
    pub checked: usize,
    /// Answers that differed.
    pub divergences: usize,
    /// Divergences kept for display.
    pub shown: usize,
}

impl Tally {
    /// The counts relate: no more divergences than answers, and no more
    /// kept than the limit or than there were.
    pub open spec fn wf(&self) -> bool {
        &&& self.divergences <= self.checked
        &&& self.shown <= self.divergences
        &&& self.shown <= SHOWN_LIMIT
    }

    /// Nothing compared yet.
    pub fn new() -> (t: Tally)
        ensures
            t.wf(),
            t.checked == 0,
            t.divergences == 0,
            t.shown == 0,
    {
        Tally { checked: 0, divergences: 0, shown: 0 }
    }

    /// Count one pair of answers; `true` when they differ and the
    /// divergence is to be kept for display.
    pub fn record(&mut self, ours: &Answer, theirs: &Answer) -> (keep: bool)
        requires
            old(self).wf(),
            old(self).checked < usize::MAX,
        ensures
            final(self).wf(),
            final(self).checked == old(self).checked + 1,
            final(self).divergences == old(self).divergences + (if ours@ == theirs@ {
                0int
            } else {
                1int
            }),
            keep == (ours@ != theirs@ && old(self).shown < SHOWN_LIMIT),
            final(self).shown == old(self).shown + (if keep {
                1int
            } else {
                0int
            }),
    {
        self.checked = self.checked + 1;
        if same_answer(ours, theirs) {
            false
        } else {
            self.divergences = self.divergences + 1;
            if self.shown < SHOWN_LIMIT {
                self.shown = self.shown + 1;
                true
            } else {
                false
            }
        }
    }
}

/// How many queries the batch size allows.
pub const BATCH: usize = 2000;

/// The size of the next batch: a full one when running against a clock,
/// else what is left of `cases`, at most a full batch.
pub fn batch_len(done: usize, cases: usize, timed: bool) -> (n: usize)
    requires
        timed || done <= cases,
    ensures
        n == (if timed || cases - done >= BATCH {
            BATCH as int
        } else {
            cases - done
        }),
{
    if timed {
        BATCH
    } else if cases - done >= BATCH {
        BATCH
    } else {
        cases - done
    }
}

} // verus!
