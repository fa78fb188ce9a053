//! The structured-demangling grammar: a demangled C++ symbol arrives as a
//! stream of tokens (syntax-node markers, labels and punctuation), and this
//! parser recognises a member function's qualified name and argument list in
//! it. The tokens are produced outside this crate by the demangling library;
//! every decision about them is made here.

use vstd::prelude::*;

verus! {

use vstd::string::StringExecFns;

/// The syntax-node kinds the grammar distinguishes; every other node kind
/// the demangler reports is `Other`.
#[derive(Clone, Copy, Debug, PartialEq, Eq, Structural)]
pub enum NodeType {
    Prefix,
    TemplatePrefix,
    TemplateArgs,
    UnqualifiedName,
    TemplateParam,
    Decltype,
    DataMemberPrefix,
    NestedName,
    VirtualTable,
    Other,
}

/// One token of a structured demangling: a syntax-node marker, a label, or
/// a piece of punctuation.
#[derive(Clone, Debug, PartialEq, Eq)]
pub enum Token {
    Label(String),
    Type(NodeType),
    DoubleColon,
    OpenParen,
    CloseParen,
    Comma,
    Star,
    TypeInfo,
    Space,
    Const,
    Amp,
    Tilde,
    End,
}

/// A parsed member function: its qualified name and its argument list,
/// each argument a type name with a `*`, `&` or empty suffix.
#[derive(Clone, Debug, PartialEq, Eq)]
pub struct Func {
    pub name: String,
    pub args: Vec<(String, String)>,
}

/// Why a token stream was not a member function.
#[derive(Clone, Copy, Debug, PartialEq, Eq, Structural)]
pub enum MangleError {
    /// The tokens do not start with a nested name and argument list.
    NoMatch,
    /// Tokens remain after the function.
    Leftover,
}

/// An unqualified name: its node marker, one label, the closing marker.
pub open spec fn p_unqualified(ts: Seq<Token>, i: int) -> Option<(int, Seq<char>)> {
    if 0 <= i && i + 3 <= ts.len() && ts[i] == Token::Type(NodeType::UnqualifiedName) && ts[i + 2]
        == Token::End {
        match ts[i + 1] {
            Token::Label(s) => Some((i + 3, s@)),
            _ => None,
        }
    } else {
        None
    }
}

/// A prefix: its node marker around an unqualified name.
pub open spec fn p_prefix(ts: Seq<Token>, i: int) -> Option<(int, Seq<char>)> {
    if 0 <= i && i < ts.len() && ts[i] == Token::Type(NodeType::Prefix) {
        match p_unqualified(ts, i + 1) {
            Some((j, s)) => if j < ts.len() && ts[j] == Token::End {
                Some((j + 1, s))
            } else {
                None
            },
            None => None,
        }
    } else {
        None
    }
}

/// A nested name: prefix, double colon, unqualified suffix.
pub open spec fn p_nested(ts: Seq<Token>, i: int) -> Option<(int, (Seq<char>, Seq<char>))> {
    if 0 <= i && i < ts.len() && ts[i] == Token::Type(NodeType::NestedName) {
        match p_prefix(ts, i + 1) {
            Some((j, p)) => if j < ts.len() && ts[j] == Token::DoubleColon {
                match p_unqualified(ts, j + 1) {
                    Some((k, s)) => if k < ts.len() && ts[k] == Token::End {
                        Some((k + 1, (p, s)))
                    } else {
                        None
                    },
                    None => None,
                }
            } else {
                None
            },
            None => None,
        }
    } else {
        None
    }
}

/// A type: an unqualified name, or a bare label.
pub open spec fn p_typ(ts: Seq<Token>, i: int) -> Option<(int, Seq<char>)> {
    match p_unqualified(ts, i) {
        Some(r) => Some(r),
        None => if 0 <= i && i < ts.len() {
            match ts[i] {
                Token::Label(s) => Some((i + 1, s@)),
                _ => None,
            }
        } else {
            None
        },
    }
}

/// Skip one optional token equal to `t`.
pub open spec fn p_opt(ts: Seq<Token>, i: int, t: Token) -> int {
    if 0 <= i && i < ts.len() && ts[i] == t {
        i + 1
    } else {
        i
    }
}

/// One argument: a type, optional space and const, and an optional pointer
/// or reference suffix.
pub open spec fn p_arg(ts: Seq<Token>, i: int) -> Option<(int, (Seq<char>, Seq<char>))> {
    match p_typ(ts, i) {
        Some((j0, name)) => {
            let j1 = p_opt(ts, j0, Token::Space);
            let j2 = p_opt(ts, j1, Token::Const);
            if j2 < ts.len() && ts[j2] == Token::Star {
                Some((j2 + 1, (name, "*"@)))
            } else if j2 < ts.len() && ts[j2] == Token::Amp {
                Some((j2 + 1, (name, "&"@)))
            } else {
                Some((j2, (name, Seq::empty())))
            }
        },
        None => None,
    }
}

proof fn lemma_p_arg_progress(ts: Seq<Token>, i: int)
    ensures
        p_arg(ts, i) matches Some(r) ==> i < r.0 <= ts.len(),
{
}

/// The arguments after the first: a comma and an argument, as often as
/// both parse.
pub open spec fn p_arglist_more(ts: Seq<Token>, i: int) -> (int, Seq<(Seq<char>, Seq<char>)>)
    decreases ts.len() - i,
    via p_arglist_more_decreases
{
    if 0 <= i && i < ts.len() && ts[i] == Token::Comma {
        match p_arg(ts, i + 1) {
            Some((j, a)) => {
                let (e, rest) = p_arglist_more(ts, j);
                (e, seq![a] + rest)
            },
            None => (i, Seq::empty()),
        }
    } else {
        (i, Seq::empty())
    }
}

#[via_fn]
proof fn p_arglist_more_decreases(ts: Seq<Token>, i: int) {
    lemma_p_arg_progress(ts, i + 1);
}

/// A possibly empty comma-separated argument list.
pub open spec fn p_arglist(ts: Seq<Token>, i: int) -> (int, Seq<(Seq<char>, Seq<char>)>) {
    match p_arg(ts, i) {
        Some((j, a)) => {
            let (e, rest) = p_arglist_more(ts, j);
            (e, seq![a] + rest)
        },
        None => (i, Seq::empty()),
    }
}

/// A parenthesised argument list.
pub open spec fn p_args(ts: Seq<Token>, i: int) -> Option<(int, Seq<(Seq<char>, Seq<char>)>)> {
    if 0 <= i && i < ts.len() && ts[i] == Token::OpenParen {
        let (j, l) = p_arglist(ts, i + 1);
        if j < ts.len() && ts[j] == Token::CloseParen {
            Some((j + 1, l))
        } else {
            None
        }
    } else {
        None
    }
}

/// A member function: a nested name and its argument list, tolerating up to
/// two trailing spaces and a trailing const.
pub open spec fn p_func(ts: Seq<Token>, i: int) -> Option<
    (int, (Seq<char>, Seq<char>, Seq<(Seq<char>, Seq<char>)>)),
> {
    match p_nested(ts, i) {
        Some((j, ps)) => {
            match p_args(ts, j) {
                Some((k, args)) => {
                    let k1 = p_opt(ts, k, Token::Space);
                    let k2 = p_opt(ts, k1, Token::Space);
                    let k3 = p_opt(ts, k2, Token::Const);
                    Some((k3, (ps.0, ps.1, args)))
                },
                None => None,
            }
        },
        None => None,
    }
}

/// The whole token stream read as one member function: the qualified name
/// (prefix, double colon, suffix) and the argument list, with no tokens
/// left over.
pub open spec fn spec_demangle(ts: Seq<Token>) -> Option<
    (Seq<char>, Seq<(Seq<char>, Seq<char>)>),
> {
    match p_func(ts, 0) {
        Some((e, f)) => if e == ts.len() {
            Some((f.0 + "::"@ + f.1, f.2))
        } else {
            None
        },
        None => None,
    }
}

/// The view of a parsed argument list.
pub open spec fn args_view(v: Seq<(String, String)>) -> Seq<(Seq<char>, Seq<char>)> {
    v.map_values(|a: (String, String)| (a.0@, a.1@))
}

fn parse_unqualified(ts: &Vec<Token>, i: usize) -> (r: Option<(usize, String)>)
    requires
        i <= ts@.len(),
    ensures
        match p_unqualified(ts@, i as int) {
            Some((j, s)) => r matches Some(p) && p.0 == j && p.1@ == s,
            None => r is None,
        },
{
    if ts.len() >= 3 && i <= ts.len() - 3 {
        let ok = match &ts[i] {
            Token::Type(NodeType::UnqualifiedName) => true,
            _ => false,
        };
        let endok = match &ts[i + 2] {
            Token::End => true,
            _ => false,
        };
        if ok && endok {
            match &ts[i + 1] {
                Token::Label(s) => Some((i + 3, s.clone())),
                _ => None,
            }
        } else {
            None
        }
    } else {
        None
    }
}

fn parse_prefix(ts: &Vec<Token>, i: usize) -> (r: Option<(usize, String)>)
    requires
        i <= ts@.len(),
    ensures
        match p_prefix(ts@, i as int) {
            Some((j, s)) => r matches Some(p) && p.0 == j && p.1@ == s,
            None => r is None,
        },
{
    if i < ts.len() {
        let ok = match &ts[i] {
            Token::Type(NodeType::Prefix) => true,
            _ => false,
        };
        if !ok {
            return None;
        }
        match parse_unqualified(ts, i + 1) {
            Some((j, s)) => {
                if j < ts.len() {
                    match &ts[j] {
                        Token::End => Some((j + 1, s)),
                        _ => None,
                    }
                } else {
                    None
                }
            },
            None => None,
        }
    } else {
        None
    }
}

fn parse_nested(ts: &Vec<Token>, i: usize) -> (r: Option<(usize, String, String)>)
    requires
        i <= ts@.len(),
    ensures
        match p_nested(ts@, i as int) {
            Some((j, ps)) => r matches Some(p) && p.0 == j && p.1@ == ps.0 && p.2@ == ps.1,
            None => r is None,
        },
{
    if i >= ts.len() {
        return None;
    }
    let ok = match &ts[i] {
        Token::Type(NodeType::NestedName) => true,
        _ => false,
    };
    if !ok {
        return None;
    }
    let (j, p) = match parse_prefix(ts, i + 1) {
        Some(r) => r,
        None => {
            return None;
        },
    };
    if j >= ts.len() {
        return None;
    }
    let dc = match &ts[j] {
        Token::DoubleColon => true,
        _ => false,
    };
    if !dc {
        return None;
    }
    let (k, s) = match parse_unqualified(ts, j + 1) {
        Some(r) => r,
        None => {
            return None;
        },
    };
    if k >= ts.len() {
        return None;
    }
    match &ts[k] {
        Token::End => Some((k + 1, p, s)),
        _ => None,
    }
}

fn parse_typ(ts: &Vec<Token>, i: usize) -> (r: Option<(usize, String)>)
    requires
        i <= ts@.len(),
    ensures
        match p_typ(ts@, i as int) {
            Some((j, s)) => r matches Some(p) && p.0 == j && p.1@ == s,
            None => r is None,
        },
{
    match parse_unqualified(ts, i) {
        Some(r) => Some(r),
        None => {
            if i < ts.len() {
                match &ts[i] {
                    Token::Label(s) => Some((i + 1, s.clone())),
                    _ => None,
                }
            } else {
                None
            }
        },
    }
}

fn skip_opt(ts: &Vec<Token>, i: usize, space: bool) -> (r: usize)
    requires
        i <= ts@.len(),
    ensures
        r == p_opt(
            ts@,
            i as int,
            if space {
                Token::Space
            } else {
                Token::Const
            },
        ),
        i <= r <= ts@.len(),
{
    if i < ts.len() {
        let m = match &ts[i] {
            Token::Space => space,
            Token::Const => !space,
            _ => false,
        };
        if m {
            i + 1
        } else {
            i
        }
    } else {
        i
    }
}

fn parse_arg(ts: &Vec<Token>, i: usize) -> (r: Option<(usize, String, String)>)
    requires
        i <= ts@.len(),
    ensures
        match p_arg(ts@, i as int) {
            Some((j, a)) => r matches Some(p) && p.0 == j && p.1@ == a.0 && p.2@ == a.1 && i < j
                <= ts@.len(),
            None => r is None,
        },
{
    let (j0, name) = match parse_typ(ts, i) {
        Some(r) => r,
        None => {
            return None;
        },
    };
    let j1 = skip_opt(ts, j0, true);
    let j2 = skip_opt(ts, j1, false);
    if j2 < ts.len() {
        match &ts[j2] {
            Token::Star => {
                return Some((j2 + 1, name, "*".to_owned()));
            },
            Token::Amp => {
                return Some((j2 + 1, name, "&".to_owned()));
            },
            _ => {},
        }
    }
    let empty = String::new();
    proof {
        assert(empty@ =~= Seq::<char>::empty());
    }
    Some((j2, name, empty))
}

#[verifier::loop_isolation(false)]
fn parse_arglist(ts: &Vec<Token>, i: usize) -> (r: (usize, Vec<(String, String)>))
    requires
        i <= ts@.len(),
    ensures
        ({
            let (e, l) = p_arglist(ts@, i as int);
            r.0 == e && args_view(r.1@) == l && i <= r.0 <= ts@.len()
        }),
{
    let mut out: Vec<(String, String)> = Vec::new();
    let first = match parse_arg(ts, i) {
        Some((j, n, s)) => {
            out.push((n, s));
            j
        },
        None => {
            proof {
                assert(args_view(out@) =~= Seq::<(Seq<char>, Seq<char>)>::empty());
            }
            return (i, out);
        },
    };
    let mut cur = first;
    let ghost target = p_arglist_more(ts@, first as int);
    proof {
        assert(args_view(out@) =~= seq![
            (p_arg(ts@, i as int)->Some_0.1 .0, p_arg(ts@, i as int)->Some_0.1 .1),
        ]);
    }
    loop
        invariant
            i < cur <= ts@.len(),
            out@.len() >= 1,
            ({
                let (e, rest) = p_arglist_more(ts@, cur as int);
                target.0 == e && target.1 == args_view(out@).skip(1) + rest
            }),
            args_view(out@).take(1) == seq![
                (p_arg(ts@, i as int)->Some_0.1 .0, p_arg(ts@, i as int)->Some_0.1 .1),
            ],
        decreases ts@.len() - cur,
    {
        let mut advanced = false;
        if cur < ts.len() {
            let comma = match &ts[cur] {
                Token::Comma => true,
                _ => false,
            };
            if comma {
                match parse_arg(ts, cur + 1) {
                    Some((j, n, s)) => {
                        let ghost before = out@;
                        out.push((n, s));
                        proof {
                            assert(args_view(out@) =~= args_view(before).push((n@, s@)));
                            assert(args_view(out@).skip(1) =~= args_view(before).skip(1).push(
                                (n@, s@),
                            ));
                            assert(args_view(out@).take(1) =~= args_view(before).take(1));
                            let (e2, rest2) = p_arglist_more(ts@, j as int);
                            assert(args_view(before).skip(1) + (seq![(n@, s@)] + rest2)
                                =~= args_view(out@).skip(1) + rest2);
                        }
                        cur = j;
                        advanced = true;
                    },
                    None => {},
                }
            }
        }
        if !advanced {
            proof {
                let (e, l) = p_arglist(ts@, i as int);
                assert(args_view(out@) =~= args_view(out@).take(1) + args_view(out@).skip(1));
                assert(l =~= args_view(out@));
            }
            return (cur, out);
        }
    }
}

fn parse_args(ts: &Vec<Token>, i: usize) -> (r: Option<(usize, Vec<(String, String)>)>)
    requires
        i <= ts@.len(),
    ensures
        match p_args(ts@, i as int) {
            Some((j, l)) => r matches Some(p) && p.0 == j && args_view(p.1@) == l && p.0
                <= ts@.len(),
            None => r is None,
        },
{
    if i >= ts.len() {
        return None;
    }
    let open = match &ts[i] {
        Token::OpenParen => true,
        _ => false,
    };
    if !open {
        return None;
    }
    let (j, l) = parse_arglist(ts, i + 1);
    if j < ts.len() {
        match &ts[j] {
            Token::CloseParen => Some((j + 1, l)),
            _ => None,
        }
    } else {
        None
    }
}

/// Read the whole token stream as one member function; fails when the
/// tokens do not spell a nested name with an argument list, or when tokens
/// are left over after it.
pub fn demangle(tokens: &Vec<Token>) -> (r: Result<Func, MangleError>)
    ensures
        match spec_demangle(tokens@) {
            Some((nm, args)) => r matches Ok(f) && f.name@ == nm && args_view(f.args@) == args,
            None => r is Err,
        },
        r matches Err(e) ==> e == (if p_func(tokens@, 0) is Some {
            MangleError::Leftover
        } else {
            MangleError::NoMatch
        }),
{
    let (j, p, s) = match parse_nested(tokens, 0) {
        Some(r) => r,
        None => {
            return Err(MangleError::NoMatch);
        },
    };
    let (k, args) = match parse_args(tokens, j) {
        Some(r) => r,
        None => {
            return Err(MangleError::NoMatch);
        },
    };
    let k1 = skip_opt(tokens, k, true);
    let k2 = skip_opt(tokens, k1, true);
    let k3 = skip_opt(tokens, k2, false);
    if k3 != tokens.len() {
        return Err(MangleError::Leftover);
    }
    let mut name = p;
    name.append("::");
    name.append(s.as_str());
    Ok(Func { name, args })
}

} // verus!
