//! Prerelease and build identifiers, and how they order.
//!
//! Numeric identifiers compare numerically, alphanumeric ones compare
//! character by character, and a numeric identifier always sorts before an
//! alphanumeric one. A list of identifiers orders by its first difference,
//! a shorter prefix first.
use crate::constants::MAX_SAFE_INTEGER;
use crate::text::{
    all_digits, chars_of, chars_of_string, dec_value, digit_char, is_digit, num_text, push_all,
    push_number, read_number, slice, string_of,
};
use std::cmp::Ordering;
use vstd::prelude::*;

verus! {

/// A prerelease or build identifier.
#[derive(Debug, Clone, PartialEq, Eq)]
pub enum Identifier {
    /// A purely-numeric identifier no larger than `MAX_SAFE_INTEGER`.
    Numeric(u64),
    /// Anything else, compared as text.
    Alphanumeric(String),
}

/// What an identifier is: a number or a piece of text.
pub enum IdentView {
    Num(u64),
    Alpha(Seq<char>),
}

impl View for Identifier {
    type V = IdentView;

    open spec fn view(&self) -> IdentView {
        match self {
            Identifier::Numeric(n) => IdentView::Num(*n),
            Identifier::Alphanumeric(s) => IdentView::Alpha(s@),
        }
    }
}

/// How raw identifier text is classified: a non-empty run of
/// digits whose value fits is a number, anything else stays text.
pub open spec fn ident_of(t: Seq<char>) -> IdentView {
    if t.len() > 0 && all_digits(t) && dec_value(t) <= MAX_SAFE_INTEGER {
        IdentView::Num(dec_value(t) as u64)
    } else {
        IdentView::Alpha(t)
    }
}

/// The text of an identifier.
pub open spec fn ident_text(i: IdentView) -> Seq<char> {
    match i {
        IdentView::Num(n) => num_text(n as nat),
        IdentView::Alpha(s) => s,
    }
}

pub open spec fn ids_view(s: Seq<Identifier>) -> Seq<IdentView> {
    s.map_values(|x: Identifier| x@)
}

/// Three-way comparison as -1, 0 or 1.
pub open spec fn u64_order(a: u64, b: u64) -> i8 {
    if a < b {
        -1i8
    } else if a == b {
        0
    } else {
        1
    }
}

/// Character-by-character comparison, a prefix first.
pub open spec fn text_order(a: Seq<char>, b: Seq<char>) -> i8
    decreases a.len(),
{
    if a.len() == 0 && b.len() == 0 {
        0
    } else if a.len() == 0 {
        -1i8
    } else if b.len() == 0 {
        1
    } else if a[0] < b[0] {
        -1i8
    } else if a[0] > b[0] {
        1
    } else {
        text_order(a.drop_first(), b.drop_first())
    }
}

pub open spec fn id_order(a: IdentView, b: IdentView) -> i8 {
    match (a, b) {
        (IdentView::Num(x), IdentView::Num(y)) => u64_order(x, y),
        (IdentView::Num(_), IdentView::Alpha(_)) => -1i8,
        (IdentView::Alpha(_), IdentView::Num(_)) => 1,
        (IdentView::Alpha(x), IdentView::Alpha(y)) => text_order(x, y),
    }
}

/// Lexicographic order on identifier lists: the first differing
/// identifier decides, and a proper prefix comes first.
pub open spec fn list_order(a: Seq<IdentView>, b: Seq<IdentView>) -> i8
    decreases a.len(),
{
    if a.len() == 0 && b.len() == 0 {
        0
    } else if a.len() == 0 {
        -1i8
    } else if b.len() == 0 {
        1
    } else if id_order(a[0], b[0]) != 0 {
        id_order(a[0], b[0])
    } else {
        list_order(a.drop_first(), b.drop_first())
    }
}

pub open spec fn ordering_of(x: i8) -> Ordering {
    if x < 0 {
        Ordering::Less
    } else if x == 0 {
        Ordering::Equal
    } else {
        Ordering::Greater
    }
}

pub fn to_ordering(x: i8) -> (o: Ordering)
    ensures
        o == ordering_of(x),
{
    if x < 0 {
        Ordering::Less
    } else if x == 0 {
        Ordering::Equal
    } else {
        Ordering::Greater
    }
}

impl Identifier {
    /// Classify a raw identifier: a number when it is all digits and fits,
    /// else text.
    pub fn parse(raw: &str) -> (r: Identifier)
        ensures
            r@ == ident_of(raw@),
    {
        let v = chars_of(raw);
        assert(v@.subrange(0, v@.len() as int) =~= v@);
        ident_from(&v, 0, v.len())
    }

    /// Classify an identifier; loose mode reads digits the same way, so a
    /// leading zero is dropped (`01` is the number 1).
    pub fn parse_with(raw: &str, loose: bool) -> (r: Identifier)
        ensures
            r@ == ident_of(raw@),
    {
        Identifier::parse(raw)
    }

    /// Whether this identifier is the numeric variant.
    pub fn is_numeric(&self) -> (r: bool)
        ensures
            r == (self@ is Num),
    {
        match self {
            Identifier::Numeric(_) => true,
            Identifier::Alphanumeric(_) => false,
        }
    }

    /// The identifier's text.
    pub fn to_string(&self) -> (r: String)
        ensures
            r@ == ident_text(self@),
    {
        let mut out: Vec<char> = Vec::new();
        push_ident(&mut out, self);
        string_of(&out)
    }

    /// A copy of this identifier.
    pub fn copy(&self) -> (r: Identifier)
        ensures
            r@ == self@,
    {
        match self {
            Identifier::Numeric(n) => Identifier::Numeric(*n),
            Identifier::Alphanumeric(s) => Identifier::Alphanumeric(s.clone()),
        }
    }
}

/// Append an identifier's text.
pub fn push_ident(out: &mut Vec<char>, id: &Identifier)
    ensures
        final(out)@ == old(out)@ + ident_text(id@),
{
    match id {
        Identifier::Numeric(n) => push_number(out, *n),
        Identifier::Alphanumeric(s) => {
            let t = chars_of_string(s);
            push_all(out, &t);
        },
    }
}

/// Classify `s[i..j]`.
pub fn ident_from(s: &Vec<char>, i: usize, j: usize) -> (r: Identifier)
    requires
        i <= j <= s@.len(),
    ensures
        r@ == ident_of(s@.subrange(i as int, j as int)),
{
    let ghost t = s@.subrange(i as int, j as int);
    let mut k = i;
    while k < j && digit_char(s[k])
        invariant
            i <= k <= j <= s@.len(),
            t == s@.subrange(i as int, j as int),
            forall|m: int| i <= m < k ==> #[trigger] is_digit(s@[m]),
        decreases j - k,
    {
        k = k + 1;
    }
    if i < j && k == j {
        proof {
            assert forall|m: int| 0 <= m < t.len() implies #[trigger] is_digit(t[m]) by {
                assert(t[m] == s@[i + m]);
            }
        }
        match read_number(s, i, j) {
            Some(n) => {
                return Identifier::Numeric(n);
            },
            None => {},
        }
    } else {
        proof {
            if i < j {
                assert(!is_digit(t[k - i]));
            }
        }
    }
    let sub = slice(s, i, j);
    Identifier::Alphanumeric(string_of(&sub))
}

/// Compare two texts, returning -1, 0 or 1.
pub fn compare_text(a: &Vec<char>, b: &Vec<char>) -> (r: i8)
    ensures
        r == text_order(a@, b@),
{
    let mut i: usize = 0;
    assert(a@.skip(0) =~= a@);
    assert(b@.skip(0) =~= b@);
    while i < a.len() && i < b.len()
        invariant
            i <= a@.len(),
            i <= b@.len(),
            text_order(a@, b@) == text_order(a@.skip(i as int), b@.skip(i as int)),
        decreases a@.len() - i,
    {
        let x = a[i];
        let y = b[i];
        assert(a@.skip(i as int)[0] == a@[i as int]);
        assert(b@.skip(i as int)[0] == b@[i as int]);
        if x < y {
            return -1;
        }
        if x > y {
            return 1;
        }
        assert(a@.skip(i as int).drop_first() =~= a@.skip(i + 1));
        assert(b@.skip(i as int).drop_first() =~= b@.skip(i + 1));
        i = i + 1;
    }
    if i == a.len() && i == b.len() {
        0
    } else if i == a.len() {
        -1i8
    } else {
        1
    }
}

/// Compare two identifiers, returning -1, 0 or 1.
pub fn id_order_exec(a: &Identifier, b: &Identifier) -> (r: i8)
    ensures
        r == id_order(a@, b@),
{
    match (a, b) {
        (Identifier::Numeric(x), Identifier::Numeric(y)) => {
            if *x < *y {
                -1i8
            } else if *x == *y {
                0
            } else {
                1
            }
        },
        (Identifier::Numeric(_), Identifier::Alphanumeric(_)) => -1i8,
        (Identifier::Alphanumeric(_), Identifier::Numeric(_)) => 1,
        (Identifier::Alphanumeric(x), Identifier::Alphanumeric(y)) => {
            let xs = chars_of_string(x);
            let ys = chars_of_string(y);
            compare_text(&xs, &ys)
        },
    }
}

/// Compare two identifiers.
pub fn compare_identifiers(a: &Identifier, b: &Identifier) -> (o: Ordering)
    ensures
        o == ordering_of(id_order(a@, b@)),
{
    to_ordering(id_order_exec(a, b))
}

/// Reverse comparison, for sorting in descending order.
pub fn rcompare_identifiers(a: &Identifier, b: &Identifier) -> (o: Ordering)
    ensures
        o == ordering_of(id_order(b@, a@)),
{
    compare_identifiers(b, a)
}

/// Compare two identifier lists, returning -1, 0 or 1.
pub fn list_order_exec(a: &[Identifier], b: &[Identifier]) -> (r: i8)
    ensures
        r == list_order(ids_view(a@), ids_view(b@)),
{
    let ghost va = ids_view(a@);
    let ghost vb = ids_view(b@);
    let mut i: usize = 0;
    assert(va.skip(0) =~= va);
    assert(vb.skip(0) =~= vb);
    while i < a.len() && i < b.len()
        invariant
            i <= a@.len(),
            i <= b@.len(),
            va == ids_view(a@),
            vb == ids_view(b@),
            list_order(va, vb) == list_order(va.skip(i as int), vb.skip(i as int)),
        decreases a@.len() - i,
    {
        let c = id_order_exec(&a[i], &b[i]);
        assert(va.skip(i as int)[0] == a@[i as int]@);
        assert(vb.skip(i as int)[0] == b@[i as int]@);
        if c != 0 {
            return c;
        }
        assert(va.skip(i as int).drop_first() =~= va.skip(i + 1));
        assert(vb.skip(i as int).drop_first() =~= vb.skip(i + 1));
        i = i + 1;
    }
    if i == a.len() && i == b.len() {
        0
    } else if i == a.len() {
        -1i8
    } else {
        1
    }
}

/// Compare two identifier lists (a whole prerelease tag).
pub fn compare_identifier_lists(a: &[Identifier], b: &[Identifier]) -> (o: Ordering)
    ensures
        o == ordering_of(list_order(ids_view(a@), ids_view(b@))),
{
    to_ordering(list_order_exec(a, b))
}

// ── laws ────────────────────────────────────────────────────────────────
/// Two non-empty sequences with the same head and the same tail are equal.
pub proof fn lemma_seq_cons_eq<T>(a: Seq<T>, b: Seq<T>)
    requires
        a.len() > 0,
        b.len() > 0,
        a[0] == b[0],
        a.drop_first() == b.drop_first(),
    ensures
        a == b,
{
    assert(a.len() == a.drop_first().len() + 1);
    assert(b.len() == b.drop_first().len() + 1);
    assert forall|k: int| 0 <= k < a.len() implies a[k] == b[k] by {
        if k > 0 {
            assert(a[k] == a.drop_first()[k - 1]);
            assert(b[k] == b.drop_first()[k - 1]);
        }
    }
    assert(a =~= b);
}

/// Text order is antisymmetric and equal only on equal texts.
pub proof fn lemma_text_order_antisym(a: Seq<char>, b: Seq<char>)
    ensures
        text_order(a, b) == -text_order(b, a),
        text_order(a, b) == 0 <==> a == b,
    decreases a.len(),
{
    if a.len() > 0 && b.len() > 0 {
        lemma_text_order_antisym(a.drop_first(), b.drop_first());
        if a[0] == b[0] && a.drop_first() == b.drop_first() {
            lemma_seq_cons_eq(a, b);
        }
    } else if a.len() == 0 && b.len() == 0 {
        assert(a =~= b);
    }
}

/// Text order is transitive.
pub proof fn lemma_text_order_trans(a: Seq<char>, b: Seq<char>, c: Seq<char>)
    requires
        text_order(a, b) <= 0,
        text_order(b, c) <= 0,
    ensures
        text_order(a, c) <= 0,
    decreases a.len(),
{
    if a.len() > 0 && b.len() > 0 && c.len() > 0 {
        if a[0] == b[0] && b[0] == c[0] {
            lemma_text_order_trans(a.drop_first(), b.drop_first(), c.drop_first());
        }
    }
}

/// Identifier order is antisymmetric and equal only on equal identifiers.
pub proof fn lemma_id_order_antisym(a: IdentView, b: IdentView)
    ensures
        id_order(a, b) == -id_order(b, a),
        id_order(a, b) == 0 <==> a == b,
{
    match (a, b) {
        (IdentView::Alpha(x), IdentView::Alpha(y)) => lemma_text_order_antisym(x, y),
        _ => {},
    }
}

/// Identifier order is transitive.
pub proof fn lemma_id_order_trans(a: IdentView, b: IdentView, c: IdentView)
    requires
        id_order(a, b) <= 0,
        id_order(b, c) <= 0,
    ensures
        id_order(a, c) <= 0,
{
    match (a, b, c) {
        (IdentView::Alpha(x), IdentView::Alpha(y), IdentView::Alpha(z)) => lemma_text_order_trans(
            x,
            y,
            z,
        ),
        _ => {},
    }
}

/// List order is antisymmetric and equal only on equal lists.
pub proof fn lemma_list_order_antisym(a: Seq<IdentView>, b: Seq<IdentView>)
    ensures
        list_order(a, b) == -list_order(b, a),
        list_order(a, b) == 0 <==> a == b,
    decreases a.len(),
{
    if a.len() > 0 && b.len() > 0 {
        lemma_id_order_antisym(a[0], b[0]);
        lemma_list_order_antisym(a.drop_first(), b.drop_first());
        if a[0] == b[0] && a.drop_first() == b.drop_first() {
            lemma_seq_cons_eq(a, b);
        }
    } else if a.len() == 0 && b.len() == 0 {
        assert(a =~= b);
    }
}

/// List order is transitive.
pub proof fn lemma_list_order_trans(a: Seq<IdentView>, b: Seq<IdentView>, c: Seq<IdentView>)
    requires
        list_order(a, b) <= 0,
        list_order(b, c) <= 0,
    ensures
        list_order(a, c) <= 0,
    decreases a.len(),
{
    if a.len() > 0 && b.len() > 0 && c.len() > 0 {
        lemma_id_order_antisym(a[0], b[0]);
        lemma_id_order_antisym(b[0], c[0]);
        lemma_id_order_antisym(a[0], c[0]);
        lemma_id_order_trans(a[0], b[0], c[0]);
        if id_order(a[0], b[0]) == 0 && id_order(b[0], c[0]) == 0 {
            lemma_list_order_trans(a.drop_first(), b.drop_first(), c.drop_first());
        } else if id_order(a[0], b[0]) == 0 {
            assert(a[0] == b[0]);
        } else if id_order(b[0], c[0]) == 0 {
            assert(b[0] == c[0]);
        } else {
            if id_order(a[0], c[0]) == 0 {
                assert(a[0] == c[0]);
                lemma_id_order_trans(c[0], a[0], b[0]);
            }
        }
    }
}

} // verus!
