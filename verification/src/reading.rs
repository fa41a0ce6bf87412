//! What reading a version text looks past: whitespace around it, in
//! strict mode one leading `v`, in loose mode any run of `=` and `v`.
use crate::constants::Options;
use crate::semver::{eqv_lead, parse_spec, parsed, too_long, version_body};
use crate::text::{
    is_digit, is_ws, lemma_ws_lead, lemma_ws_trail, trim, trim_end, trim_start, ws_lead, ws_trail,
};
use vstd::prelude::*;
use vstd::utf8::encode_utf8;

verus! {

/// Encoding a joined text encodes the parts one after the other.
proof fn lemma_encode_join(a: Seq<char>, b: Seq<char>)
    ensures
        encode_utf8(a + b) == encode_utf8(a) + encode_utf8(b),
    decreases a.len(),
{
    if a.len() == 0 {
        assert(a + b =~= b);
        assert(encode_utf8(a) + encode_utf8(b) =~= encode_utf8(b));
    } else {
        assert((a + b)[0] == a[0]);
        assert((a + b).drop_first() =~= a.drop_first() + b);
        lemma_encode_join(a.drop_first(), b);
        assert(encode_utf8(a + b) =~= encode_utf8(a) + encode_utf8(b));
    }
}

/// A text that fits the length limit keeps fitting without a prefix or
/// a suffix.
proof fn lemma_part_fits(l: Seq<char>, t: Seq<char>, r: Seq<char>)
    requires
        !too_long(l + t + r),
    ensures
        !too_long(t),
{
    lemma_encode_join(l, t);
    lemma_encode_join(l + t, r);
}

/// Trailing whitespace is counted within the text after any prefix, as
/// long as that text begins with a non-whitespace character.
proof fn lemma_ws_trail_after(p: Seq<char>, t: Seq<char>)
    requires
        t.len() > 0,
        !is_ws(t[0]),
    ensures
        ws_trail(p + t) == ws_trail(t),
        ws_trail(t) < t.len(),
    decreases t.len(),
{
    let s = p + t;
    assert(s.last() == t.last());
    if is_ws(t.last()) {
        assert(t.len() >= 2);
        assert(s.drop_last() =~= p + t.drop_last());
        assert(t.drop_last()[0] == t[0]);
        lemma_ws_trail_after(p, t.drop_last());
    }
}

/// Trimming a text that starts with a non-whitespace prefix trims only
/// its end, and what is left of the rest starts where the rest did.
proof fn lemma_trim_after(p: Seq<char>, t: Seq<char>)
    requires
        p.len() > 0,
        !is_ws(p[0]),
        t.len() > 0,
        !is_ws(t[0]),
    ensures
        trim(p + t) == p + trim(t),
        trim(t).len() > 0,
        trim(t)[0] == t[0],
{
    let s = p + t;
    assert(s[0] == p[0]);
    assert(ws_lead(s) == 0);
    assert(ws_lead(t) == 0);
    assert(s.skip(0) =~= s);
    assert(t.skip(0) =~= t);
    lemma_ws_trail_after(p, t);
    lemma_ws_trail_after(Seq::empty(), t);
    assert(Seq::<char>::empty() + t =~= t);
    assert(trim_start(s) == s);
    assert(trim_start(t) == t);
    assert(trim_end(s) =~= p + trim_end(t));
}

/// Whitespace around a version text is ignored, in either mode: padded
/// on either side with whitespace, a text reads as it does bare (as long
/// as the padded text is within the length limit).
pub proof fn lemma_padding_ignored(l: Seq<char>, t: Seq<char>, r: Seq<char>, o: Options)
    requires
        forall|k: int| 0 <= k < l.len() ==> #[trigger] is_ws(l[k]),
        forall|k: int| 0 <= k < r.len() ==> #[trigger] is_ws(r[k]),
        t.len() > 0,
        !is_ws(t[0]),
        !is_ws(t.last()),
        !too_long(l + t + r),
    ensures
        parsed(l + t + r, o) == parsed(t, o),
{
    lemma_part_fits(l, t, r);
    let s = l + t + r;
    assert forall|k: int| 0 <= k < l.len() implies #[trigger] is_ws(s[k]) by {
        assert(s[k] == l[k]);
    }
    lemma_ws_lead(s, l.len() as int);
    let u = s.skip(l.len() as int);
    assert(u =~= t + r);
    assert(u[0] == t[0]);
    assert(ws_lead(u) == 0);
    assert forall|k: int| u.len() - r.len() <= k < u.len() implies #[trigger] is_ws(u[k]) by {
        assert(u[k] == r[k - t.len()]);
    }
    lemma_ws_trail(u, r.len() as int);
    let w = u.take(u.len() - r.len());
    assert(w =~= t);
    assert(w.last() == t.last());
    assert(ws_trail(w) == 0);
    assert(trim(s) == t);
    // The bare text is already trimmed.
    assert(ws_lead(t) == 0);
    assert(ws_trail(t) == 0);
    assert(t.skip(0) =~= t);
    assert(t.take(t.len() as int) =~= t);
    assert(trim(t) == t);
    assert(version_body(s, o.loose) == version_body(t, o.loose));
}

/// In strict mode one leading `v` is read past: `v` followed by a text
/// that starts with a digit reads as that text.
pub proof fn lemma_strict_leading_v(t: Seq<char>, o: Options)
    requires
        !o.loose,
        t.len() > 0,
        is_digit(t[0]),
        !too_long(seq!['v'] + t),
    ensures
        parsed(seq!['v'] + t, o) == parsed(t, o),
{
    let p = seq!['v'];
    lemma_part_fits(p, t, Seq::empty());
    assert(p + t + Seq::<char>::empty() =~= p + t);
    assert(!is_ws('v'));
    assert(!is_ws(t[0]));
    lemma_trim_after(p, t);
    let s = p + t;
    assert(trim(s)[0] == 'v');
    assert(trim(s).drop_first() =~= trim(t));
    assert(trim(t)[0] != 'v');
    assert(version_body(s, false) == version_body(t, false));
}

/// Leading `=` and `v` marks in front of a text that starts with a digit
/// are counted exactly.
proof fn lemma_marks_counted(p: Seq<char>, t: Seq<char>)
    requires
        forall|k: int| 0 <= k < p.len() ==> (#[trigger] p[k] == '=' || p[k] == 'v'),
        t.len() > 0,
        is_digit(t[0]),
    ensures
        eqv_lead(p + t) == p.len(),
    decreases p.len(),
{
    if p.len() == 0 {
        assert(p + t =~= t);
    } else {
        assert((p + t)[0] == p[0]);
        assert((p + t).drop_first() =~= p.drop_first() + t);
        assert forall|k: int| 0 <= k < p.drop_first().len() implies (#[trigger] p.drop_first()[k] == '='
            || p.drop_first()[k] == 'v') by {
            assert(p.drop_first()[k] == p[k + 1]);
        }
        lemma_marks_counted(p.drop_first(), t);
    }
}

/// In loose mode any run of `=` and `v` marks is read past: the marks
/// followed by a text that starts with a digit read as that text.
pub proof fn lemma_loose_leading_marks(p: Seq<char>, t: Seq<char>, o: Options)
    requires
        o.loose,
        forall|k: int| 0 <= k < p.len() ==> (#[trigger] p[k] == '=' || p[k] == 'v'),
        t.len() > 0,
        is_digit(t[0]),
        !too_long(p + t),
    ensures
        parsed(p + t, o) == parsed(t, o),
{
    if p.len() == 0 {
        assert(p + t =~= t);
    } else {
        lemma_part_fits(p, t, Seq::empty());
        assert(p + t + Seq::<char>::empty() =~= p + t);
        assert(!is_ws(p[0]));
        assert(!is_ws(t[0]));
        lemma_trim_after(p, t);
        let tt = trim(t);
        lemma_marks_counted(p, tt);
        lemma_marks_counted(Seq::empty(), tt);
        assert(Seq::<char>::empty() + tt =~= tt);
        assert((p + tt).skip(p.len() as int) =~= tt);
        assert(tt.skip(0) =~= tt);
        assert(ws_lead(tt) == 0);
        assert(trim_start(tt) =~= tt);
        assert(version_body(p + t, true) == version_body(t, true));
    }
}


/// In strict mode nothing else before the numbers is read past: a text
/// that starts with `=`, or with `v` followed by anything but a digit,
/// does not read as a version.
pub proof fn lemma_strict_reads_one_v(t: Seq<char>, o: Options)
    requires
        !o.loose,
        t.len() > 1,
        t[0] == '=' || (t[0] == 'v' && !is_digit(t[1])),
    ensures
        parsed(t, o) is None,
{
    reveal(crate::semver::scan_version);
    assert(!is_ws(t[0]));
    lemma_ws_trail_after(Seq::empty(), t);
    assert(Seq::<char>::empty() + t =~= t);
    assert(ws_lead(t) == 0);
    assert(t.skip(0) =~= t);
    let tt = trim(t);
    assert(tt =~= t.take(t.len() - ws_trail(t)));
    assert(tt[0] == t[0]);
    let b = version_body(t, false);
    if t[0] == '=' {
        assert(b == tt);
        crate::canonical::lemma_digit_run_end_at(b, 0, 0);
    } else {
        assert(b == tt.drop_first());
        if b.len() > 0 {
            assert(b[0] == t[1]);
        }
        crate::canonical::lemma_digit_run_end_at(b, 0, 0);
    }
    assert(b.subrange(0, 0).len() == 0);
}

} // verus!
