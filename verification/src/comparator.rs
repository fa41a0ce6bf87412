//! Comparators: one constraint such as `>=1.2.3`, or `*` for any version.
use crate::constants::{IntoOptions, Options};
use crate::error::{Error, Result};
use crate::identifiers::ident_text;
use crate::semver::{well_formed, lemma_parsed_well_formed, parsed, render, ver_order, SemVer, VersionView};
use crate::text::{chars_of, slice, string_of, trim, trim_vec};
use vstd::prelude::*;

verus! {

/// A comparator's operator.
#[derive(Debug, Clone, Copy, PartialEq, Eq, Structural)]
pub enum Op {
    /// `=`, or no operator written at all.
    Eq,
    /// `>`
    Gt,
    /// `>=`
    Gte,
    /// `<`
    Lt,
    /// `<=`
    Lte,
}

/// The canonical spelling of an operator; empty for `=`.
pub open spec fn op_text(op: Op) -> Seq<char> {
    match op {
        Op::Eq => Seq::empty(),
        Op::Gt => seq!['>'],
        Op::Gte => seq!['>', '='],
        Op::Lt => seq!['<'],
        Op::Lte => seq!['<', '='],
    }
}

/// The operator at the front of a text and how many characters it takes.
/// Two-character forms are tried first; `==` counts only in loose mode.
pub open spec fn split_op(s: Seq<char>, loose: bool) -> (Op, nat) {
    if s.len() >= 2 && s[0] == '<' && s[1] == '=' {
        (Op::Lte, 2)
    } else if s.len() >= 2 && s[0] == '>' && s[1] == '=' {
        (Op::Gte, 2)
    } else if s.len() >= 1 && s[0] == '<' {
        (Op::Lt, 1)
    } else if s.len() >= 1 && s[0] == '>' {
        (Op::Gt, 1)
    } else if loose && s.len() >= 2 && s[0] == '=' && s[1] == '=' {
        (Op::Eq, 2)
    } else if s.len() >= 1 && s[0] == '=' {
        (Op::Eq, 1)
    } else {
        (Op::Eq, 0)
    }
}

impl Op {
    /// The operator's canonical spelling, empty for [`Op::Eq`].
    pub fn as_str(self) -> (r: &'static str)
        ensures
            r@ == op_text(self),
    {
        match self {
            Op::Eq => {
                proof {
                    reveal_strlit("");
                }
                ""
            },
            Op::Gt => {
                proof {
                    reveal_strlit(">");
                }
                ">"
            },
            Op::Gte => {
                proof {
                    reveal_strlit(">=");
                }
                ">="
            },
            Op::Lt => {
                proof {
                    reveal_strlit("<");
                }
                "<"
            },
            Op::Lte => {
                proof {
                    reveal_strlit("<=");
                }
                "<="
            },
        }
    }

    /// Append the operator's spelling.
    pub fn push_text(self, out: &mut Vec<char>)
        ensures
            final(out)@ == old(out)@ + op_text(self),
    {
        match self {
            Op::Eq => {},
            Op::Gt => out.push('>'),
            Op::Gte => {
                out.push('>');
                out.push('=');
            },
            Op::Lt => out.push('<'),
            Op::Lte => {
                out.push('<');
                out.push('=');
            },
        }
        assert(out@ =~= old(out)@ + op_text(self));
    }

    /// Split an operator off the front of a text.
    fn split(s: &Vec<char>, loose: bool) -> (r: (Op, usize))
        ensures
            r.0 == split_op(s@, loose).0,
            r.1 == split_op(s@, loose).1,
            r.1 <= s@.len(),
    {
        let n = s.len();
        if n >= 2 && s[0] == '<' && s[1] == '=' {
            (Op::Lte, 2)
        } else if n >= 2 && s[0] == '>' && s[1] == '=' {
            (Op::Gte, 2)
        } else if n >= 1 && s[0] == '<' {
            (Op::Lt, 1)
        } else if n >= 1 && s[0] == '>' {
            (Op::Gt, 1)
        } else if loose && n >= 2 && s[0] == '=' && s[1] == '=' {
            (Op::Eq, 2)
        } else if n >= 1 && s[0] == '=' {
            (Op::Eq, 1)
        } else {
            (Op::Eq, 0)
        }
    }
}

/// A single constraint, such as `>=1.2.3`.
#[derive(Debug, Clone, PartialEq)]
pub struct Comparator {
    /// The operator. Meaningless when `version` is `None`: a comparator
    /// without a version matches regardless of it.
    pub op: Op,
    /// `None` matches every version.
    pub version: Option<SemVer>,
    /// The options it was parsed with.
    pub options: Options,
}

/// What a comparator is, as plain values.
pub struct CompView {
    pub op: Op,
    pub ver: Option<VersionView>,
}

impl View for Comparator {
    type V = CompView;

    open spec fn view(&self) -> CompView {
        CompView {
            op: self.op,
            ver: match self.version {
                Some(v) => Some(v@),
                None => None,
            },
        }
    }
}

/// The comparator that matches everything.
pub open spec fn any_view() -> CompView {
    CompView { op: Op::Gte, ver: None }
}

/// Whether `v` satisfies a comparator.
pub open spec fn comp_test(c: CompView, v: VersionView) -> bool {
    match c.ver {
        None => true,
        Some(t) => {
            let k = ver_order(v, t);
            match c.op {
                Op::Eq => k == 0,
                Op::Gt => k > 0,
                Op::Gte => k >= 0,
                Op::Lt => k < 0,
                Op::Lte => k <= 0,
            }
        },
    }
}

/// `<0.0.0-0`: the canonical comparator that nothing satisfies.
pub open spec fn is_null_view(c: CompView) -> bool {
    c.op == Op::Lt && match c.ver {
        Some(t) => t.major == 0 && t.minor == 0 && t.patch == 0 && t.pre.len() == 1
            && ident_text(t.pre[0]) == seq!['0'],
        None => false,
    }
}

/// Every number in the comparator's version is at most
/// `MAX_SAFE_INTEGER`, as parsing leaves it.
pub open spec fn comp_well_formed(c: CompView) -> bool {
    c.ver matches Some(v) ==> well_formed(v)
}

/// How a comparator is written: `*`, or the operator and the version.
pub open spec fn comp_text(c: CompView) -> Seq<char> {
    match c.ver {
        None => seq!['*'],
        Some(t) => op_text(c.op) + render(t),
    }
}

/// What a comparator text reads as: trimmed, empty or `*` for any
/// version, otherwise an operator followed by a version (where again an
/// empty remainder or `*` means any version).
pub open spec fn comp_parse(input: Seq<char>, o: Options) -> Option<CompView> {
    let s = trim(input);
    if s.len() == 0 || s == seq!['*'] {
        Some(any_view())
    } else {
        let (op, n) = split_op(s, o.loose);
        let rest = trim(s.skip(n as int));
        if rest.len() == 0 || rest == seq!['*'] {
            Some(any_view())
        } else {
            match parsed(rest, o) {
                Some(v) => Some(CompView { op, ver: Some(v) }),
                None => None,
            }
        }
    }
}

impl Comparator {
    /// The comparator that matches every version (`*`).
    pub fn any(options: Options) -> (r: Comparator)
        ensures
            r@ == any_view(),
            r.options == options,
    {
        Comparator { op: Op::Gte, version: None, options }
    }

    /// A copy with the same view and options.
    pub fn copy(&self) -> (r: Comparator)
        ensures
            r@ == self@,
            r.options == self.options,
            r.version matches Some(v) ==> v.options == self.version->Some_0.options,
    {
        let version = match &self.version {
            Some(v) => Some(v.copy()),
            None => None,
        };
        Comparator { op: self.op, version, options: self.options }
    }

    /// Parse a comparator held as characters.
    pub fn parse_chars(input: &Vec<char>, options: Options) -> (r: Option<Comparator>)
        ensures
            match comp_parse(input@, options) {
                Some(c) => r is Some && r->Some_0@ == c && r->Some_0.options == options,
                None => r is None,
            },
            r matches Some(c) ==> comp_well_formed(c@),
            r matches Some(c) ==> (c.version matches Some(v) ==> v.options == options),
    {
        let s = trim_vec(input);
        if s.len() == 0 || (s.len() == 1 && s[0] == '*') {
            assert(s@.len() == 0 || s@ =~= seq!['*']);
            return Some(Comparator::any(options));
        }
        assert(!(s@ =~= seq!['*']));
        let (op, n) = Op::split(&s, options.loose);
        let tail = slice(&s, n, s.len());
        assert(tail@ =~= s@.skip(n as int));
        let rest = trim_vec(&tail);
        if rest.len() == 0 || (rest.len() == 1 && rest[0] == '*') {
            assert(rest@.len() == 0 || rest@ =~= seq!['*']);
            return Some(Comparator::any(options));
        }
        assert(!(rest@ =~= seq!['*']));
        proof {
            lemma_parsed_well_formed(rest@, options);
        }
        match crate::semver::parse_chars(&rest, options) {
            Some(v) => Some(Comparator { op, version: Some(v), options }),
            None => None,
        }
    }

    /// Parse a single comparator, such as `>=1.2.3` or `*`.
    pub fn parse<O: IntoOptions>(input: &str, options: O) -> (r: Result<Comparator>)
        ensures
            match comp_parse(input@, options.as_options()) {
                Some(c) => r is Ok && r->Ok_0@ == c && r->Ok_0.options == options.as_options(),
                None => r matches Err(Error::InvalidComparator { input: i, reason }) && i@
                    == input@ && reason@ == "the version part is not valid"@,
            },
            r matches Ok(c) ==> comp_well_formed(c@),
            r matches Ok(c) ==> (c.version matches Some(v) ==> v.options == options.as_options()),
    {
        let o = options.into_options();
        let chars = chars_of(input);
        match Comparator::parse_chars(&chars, o) {
            Some(c) => Ok(c),
            None => Err(
                Error::InvalidComparator {
                    input: string_of(&chars),
                    reason: "the version part is not valid",
                },
            ),
        }
    }

    /// Whether this comparator matches every version (`*`).
    pub fn is_any(&self) -> (r: bool)
        ensures
            r == (self@.ver is None),
    {
        self.version.is_none()
    }

    /// Whether this is `<0.0.0-0`, the canonical comparator that nothing
    /// satisfies.
    pub fn is_null_set(&self) -> (r: bool)
        ensures
            r == is_null_view(self@),
    {
        match &self.version {
            Some(v) => {
                if self.op == Op::Lt && v.major == 0 && v.minor == 0 && v.patch == 0
                    && v.prerelease.len() == 1 {
                    let mut t: Vec<char> = Vec::new();
                    crate::identifiers::push_ident(&mut t, &v.prerelease[0]);
                    assert(t@ =~= ident_text(v@.pre[0]));
                    let r = t.len() == 1 && t[0] == '0';
                    proof {
                        if r {
                            assert(t@ =~= seq!['0']);
                        }
                    }
                    r
                } else {
                    false
                }
            },
            None => false,
        }
    }

    /// The parsing options this comparator was created with.
    pub fn options(&self) -> (o: Options)
        ensures
            o == self.options,
    {
        self.options
    }

    /// Whether a version satisfies this comparator. Prerelease filtering
    /// depends on the whole comparator set and is not done here.
    pub fn test(&self, version: &SemVer) -> (r: bool)
        ensures
            r == comp_test(self@, version@),
    {
        match &self.version {
            None => true,
            Some(target) => {
                let k = version.order(target);
                match self.op {
                    Op::Eq => k == 0,
                    Op::Gt => k > 0,
                    Op::Gte => k >= 0,
                    Op::Lt => k < 0,
                    Op::Lte => k <= 0,
                }
            },
        }
    }

    /// Append how the comparator is written.
    pub fn push_text(&self, out: &mut Vec<char>)
        ensures
            final(out)@ == old(out)@ + comp_text(self@),
    {
        match &self.version {
            None => {
                out.push('*');
                assert(out@ =~= old(out)@ + comp_text(self@));
            },
            Some(v) => {
                self.op.push_text(out);
                v.push_version(out);
                assert(out@ =~= old(out)@ + comp_text(self@));
            },
        }
    }

    /// How the comparator is written: `*`, or operator and version.
    pub fn to_string(&self) -> (r: String)
        ensures
            r@ == comp_text(self@),
    {
        let mut out: Vec<char> = Vec::new();
        self.push_text(&mut out);
        assert(out@ =~= comp_text(self@));
        string_of(&out)
    }
}

} // verus!
