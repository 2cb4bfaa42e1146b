//! Lexer for the two text languages the service accepts: the declarative
//! type-graph and the hierarchical selection language. Both share one
//! ASCII token alphabet: names, integers, quoted strings, punctuation and
//! the fragment spread. Whitespace, commas and `#` comments separate
//! tokens.

use vstd::prelude::*;
use vstd::string::StringSliceAdditionalSpecFns;

verus! {

#[derive(Clone, Copy, Debug, PartialEq, Eq, Structural)]
pub enum TokKind {
    Name,
    IntLit,
    StrLit,
    LBrace,
    RBrace,
    LParen,
    RParen,
    LBrack,
    RBrack,
    Colon,
    Bang,
    At,
    Spread,
}

#[derive(Clone, Debug, PartialEq)]
pub struct Token {
    pub kind: TokKind,
    pub text: String,
}

/// The spec-level reading of one token.
#[verifier::ext_equal]
pub struct TokV {
    pub kind: TokKind,
    pub text: Seq<char>,
}

impl View for Token {
    type V = TokV;

    open spec fn view(&self) -> TokV {
        TokV { kind: self.kind, text: self.text@ }
    }
}

/// The views of a token vector.
pub open spec fn tok_views(toks: Seq<Token>) -> Seq<TokV> {
    Seq::new(toks.len(), |i: int| toks[i]@)
}

pub open spec fn is_ws_b(b: u8) -> bool {
    b == 32 || b == 9 || b == 10 || b == 13 || b == 44
}

pub open spec fn is_digit_b(b: u8) -> bool {
    48 <= b <= 57
}

pub open spec fn is_name_start_b(b: u8) -> bool {
    (65 <= b <= 90) || (97 <= b <= 122) || b == 95
}

pub open spec fn is_name_b(b: u8) -> bool {
    is_name_start_b(b) || is_digit_b(b)
}

/// The characters of an ASCII byte sequence.
pub open spec fn chars_of(s: Seq<u8>) -> Seq<char> {
    Seq::new(s.len(), |i: int| s[i] as char)
}

/// The first position at or after `i` that holds neither whitespace, a
/// comma, nor part of a `#` comment.
pub open spec fn skip_trivia(s: Seq<u8>, i: int, in_comment: bool) -> int
    decreases s.len() - i,
{
    if i < 0 || i >= s.len() {
        s.len() as int
    } else if in_comment {
        skip_trivia(s, i + 1, s[i] != 10)
    } else if is_ws_b(s[i]) {
        skip_trivia(s, i + 1, false)
    } else if s[i] == 35 {
        skip_trivia(s, i + 1, true)
    } else {
        i
    }
}

pub proof fn lemma_skip_trivia_bounds(s: Seq<u8>, i: int, in_comment: bool)
    requires
        0 <= i <= s.len(),
    ensures
        i <= skip_trivia(s, i, in_comment) <= s.len(),
    decreases s.len() - i,
{
    if i < s.len() {
        if in_comment {
            lemma_skip_trivia_bounds(s, i + 1, s[i] != 10);
        } else if is_ws_b(s[i]) {
            lemma_skip_trivia_bounds(s, i + 1, false);
        } else if s[i] == 35 {
            lemma_skip_trivia_bounds(s, i + 1, true);
        }
    }
}

/// The end of a run of name characters starting at `i`.
pub open spec fn scan_end(s: Seq<u8>, i: int, digits_only: bool) -> int
    decreases s.len() - i,
{
    if 0 <= i < s.len() && ((digits_only && is_digit_b(s[i])) || (!digits_only
        && is_name_b(s[i]))) {
        scan_end(s, i + 1, digits_only)
    } else {
        i
    }
}

pub proof fn lemma_scan_end_bounds(s: Seq<u8>, i: int, digits_only: bool)
    requires
        0 <= i <= s.len(),
    ensures
        i <= scan_end(s, i, digits_only) <= s.len(),
    decreases s.len() - i,
{
    if i < s.len() && ((digits_only && is_digit_b(s[i])) || (!digits_only && is_name_b(
        s[i],
    ))) {
        lemma_scan_end_bounds(s, i + 1, digits_only);
    }
}

/// The position of the closing quote at or after `i`, or the length when
/// the literal never closes.
pub open spec fn quote_end(s: Seq<u8>, i: int) -> int
    decreases s.len() - i,
{
    if i < 0 || i >= s.len() {
        s.len() as int
    } else if s[i] == 34 {
        i
    } else {
        quote_end(s, i + 1)
    }
}

pub proof fn lemma_quote_end_bounds(s: Seq<u8>, i: int)
    requires
        0 <= i <= s.len(),
    ensures
        i <= quote_end(s, i) <= s.len(),
    decreases s.len() - i,
{
    if i < s.len() && s[i] != 34 {
        lemma_quote_end_bounds(s, i + 1);
    }
}

/// Prefixing a token list onto a lexing outcome.
pub open spec fn tok_prepend(prefix: Seq<TokV>, rest: Option<Seq<TokV>>) -> Option<
    Seq<TokV>,
> {
    match rest {
        Some(r) => Some(prefix + r),
        None => None,
    }
}

/// The token views of the input from position `i` on, or `None` where a
/// character fits no token.
pub open spec fn toks_spec(s: Seq<u8>, i: int) -> Option<Seq<TokV>>
    decreases s.len() - i,
    when 0 <= i <= s.len()
    via toks_spec_dec
{
    let j = skip_trivia(s, i, false);
    if j >= s.len() {
        Some(Seq::empty())
    } else {
        let b = s[j];
        if is_name_start_b(b) {
            let e = scan_end(s, j + 1, false);
            tok_prepend(seq![TokV { kind: TokKind::Name, text: chars_of(s.subrange(j, e)) }], toks_spec(s, e))
        } else if is_digit_b(b) {
            let e = scan_end(s, j + 1, true);
            tok_prepend(
                seq![TokV { kind: TokKind::IntLit, text: chars_of(s.subrange(j, e)) }],
                toks_spec(s, e),
            )
        } else if b == 45 && j + 1 < s.len() && is_digit_b(s[j + 1]) {
            let e = scan_end(s, j + 1, true);
            tok_prepend(
                seq![TokV { kind: TokKind::IntLit, text: chars_of(s.subrange(j, e)) }],
                toks_spec(s, e),
            )
        } else if b == 34 {
            let e = quote_end(s, j + 1);
            if e >= s.len() {
                None
            } else {
                tok_prepend(
                    seq![TokV { kind: TokKind::StrLit, text: chars_of(s.subrange(j + 1, e)) }],
                    toks_spec(s, e + 1),
                )
            }
        } else if b == 46 {
            if j + 2 < s.len() && s[j + 1] == 46 && s[j + 2] == 46 {
                tok_prepend(seq![TokV { kind: TokKind::Spread, text: Seq::empty() }], toks_spec(s, j + 3))
            } else {
                None
            }
        } else if punct_kind(b) is Some {
            tok_prepend(
                seq![TokV { kind: punct_kind(b)->Some_0, text: Seq::empty() }],
                toks_spec(s, j + 1),
            )
        } else {
            None
        }
    }
}

#[via_fn]
proof fn toks_spec_dec(s: Seq<u8>, i: int) {
    lemma_skip_trivia_bounds(s, i, false);
    let j = skip_trivia(s, i, false);
    if j < s.len() {
        lemma_scan_end_bounds(s, j + 1, false);
        lemma_scan_end_bounds(s, j + 1, true);
        lemma_quote_end_bounds(s, j + 1);
    }
}

/// True of the kinds that carry no text.
pub open spec fn text_free(k: TokKind) -> bool {
    !(k == TokKind::Name || k == TokKind::IntLit || k == TokKind::StrLit)
}

/// Every text-free token holds the empty text. The lexer only produces
/// such token lists.
pub open spec fn wf_toks(ts: Seq<TokV>) -> bool {
    forall|i: int|
        0 <= i < ts.len() && text_free((#[trigger] ts[i]).kind) ==> ts[i].text
            == Seq::<char>::empty()
}

proof fn lemma_wf_cons(t: TokV, rest: Seq<TokV>)
    requires
        text_free(t.kind) ==> t.text == Seq::<char>::empty(),
        wf_toks(rest),
    ensures
        wf_toks(seq![t] + rest),
{
    let out = seq![t] + rest;
    assert forall|k: int|
        0 <= k < out.len() && text_free((#[trigger] out[k]).kind) implies out[k].text
        == Seq::<char>::empty() by {
        if k > 0 {
            assert(out[k] == rest[k - 1]);
        } else {
            assert(out[0] == t);
        }
    }
}

/// What the lexer reads is well formed: its text-free tokens are empty.
pub proof fn lemma_toks_spec_wf(s: Seq<u8>, i: int)
    requires
        0 <= i <= s.len(),
    ensures
        toks_spec(s, i) is Some ==> wf_toks(toks_spec(s, i)->Some_0),
    decreases s.len() - i,
{
    lemma_skip_trivia_bounds(s, i, false);
    let j = skip_trivia(s, i, false);
    if j >= s.len() {
    } else {
        let b = s[j];
        if is_name_start_b(b) {
            let e = scan_end(s, j + 1, false);
            lemma_scan_end_bounds(s, j + 1, false);
            lemma_toks_spec_wf(s, e);
            if toks_spec(s, e) is Some {
                lemma_wf_cons(
                    TokV { kind: TokKind::Name, text: chars_of(s.subrange(j, e)) },
                    toks_spec(s, e)->Some_0,
                );
            }
        } else if is_digit_b(b) || (b == 45 && j + 1 < s.len() && is_digit_b(s[j + 1])) {
            let e = scan_end(s, j + 1, true);
            lemma_scan_end_bounds(s, j + 1, true);
            lemma_toks_spec_wf(s, e);
            if toks_spec(s, e) is Some {
                lemma_wf_cons(
                    TokV { kind: TokKind::IntLit, text: chars_of(s.subrange(j, e)) },
                    toks_spec(s, e)->Some_0,
                );
            }
        } else if b == 34 {
            let e = quote_end(s, j + 1);
            lemma_quote_end_bounds(s, j + 1);
            if e < s.len() {
                lemma_toks_spec_wf(s, e + 1);
                if toks_spec(s, e + 1) is Some {
                    lemma_wf_cons(
                        TokV { kind: TokKind::StrLit, text: chars_of(s.subrange(j + 1, e)) },
                        toks_spec(s, e + 1)->Some_0,
                    );
                }
            }
        } else if b == 46 {
            if j + 2 < s.len() && s[j + 1] == 46 && s[j + 2] == 46 {
                lemma_toks_spec_wf(s, j + 3);
                if toks_spec(s, j + 3) is Some {
                    lemma_wf_cons(
                        TokV { kind: TokKind::Spread, text: Seq::empty() },
                        toks_spec(s, j + 3)->Some_0,
                    );
                }
            }
        } else if punct_kind(b) is Some {
            lemma_toks_spec_wf(s, j + 1);
            if toks_spec(s, j + 1) is Some {
                lemma_wf_cons(
                    TokV { kind: punct_kind(b)->Some_0, text: Seq::empty() },
                    toks_spec(s, j + 1)->Some_0,
                );
            }
        }
    }
}

/// The kind of a one-byte punctuation token.
pub open spec fn punct_kind(b: u8) -> Option<TokKind> {
    if b == 123 { Some(TokKind::LBrace) } else if b == 125 { Some(TokKind::RBrace) }
    else if b == 40 { Some(TokKind::LParen) } else if b == 41 { Some(TokKind::RParen) }
    else if b == 91 { Some(TokKind::LBrack) } else if b == 93 { Some(TokKind::RBrack) }
    else if b == 58 { Some(TokKind::Colon) } else if b == 33 { Some(TokKind::Bang) }
    else if b == 64 { Some(TokKind::At) } else { None }
}

proof fn lemma_ascii_chars_of(s: &str)
    requires
        s.is_ascii(),
    ensures
        chars_of(s.spec_bytes()) =~= s@,
{
    broadcast use vstd::string::is_ascii_spec_bytes;

    vstd::utf8::is_ascii_chars_nat_bound(s@);
    assert forall|i: int| 0 <= i < s@.len() implies chars_of(s.spec_bytes())[i] == s@[i] by {
        assert((s@[i] as nat) < 128);
    }
}

fn punct_token(b: u8) -> (r: Option<TokKind>)
    ensures
        r == punct_kind(b),
{
    if b == 123 { Some(TokKind::LBrace) } else if b == 125 { Some(TokKind::RBrace) }
    else if b == 40 { Some(TokKind::LParen) } else if b == 41 { Some(TokKind::RParen) }
    else if b == 91 { Some(TokKind::LBrack) } else if b == 93 { Some(TokKind::RBrack) }
    else if b == 58 { Some(TokKind::Colon) } else if b == 33 { Some(TokKind::Bang) }
    else if b == 64 { Some(TokKind::At) } else { None }
}

/// Splits the input into tokens. `None` when the text is not ASCII or a
/// character fits no token: both parsers answer that with their parse
/// error.
pub fn tokenize(s: &str) -> (r: Option<Vec<Token>>)
    ensures
        match r {
            Some(toks) => s.is_ascii() && toks_spec(s.spec_bytes(), 0) == Some(
                tok_views(toks@),
            ),
            None => !s.is_ascii() || toks_spec(s.spec_bytes(), 0) is None,
        },
{
    if !s.is_ascii() {
        return None;
    }
    proof {
        lemma_ascii_chars_of(s);
    }
    let v = s.as_bytes_vec();
    let n = v.len();
    let mut toks: Vec<Token> = Vec::new();
    let mut i: usize = 0;
    loop
        invariant
            v@ == s.spec_bytes(),
            s.is_ascii(),
            chars_of(s.spec_bytes()) =~= s@,
            n == v@.len(),
            i <= n,
            toks_spec(v@, 0) == tok_prepend(tok_views(toks@), toks_spec(v@, i as int)),
        ensures
            i == n,
            toks_spec(v@, 0) == tok_prepend(tok_views(toks@), toks_spec(v@, i as int)),
        decreases n - i,
    {
        let ghost i_at = i as int;
        let ghost toks0 = tok_views(toks@);
        // Advance over whitespace, commas and comments.
        let mut in_comment = false;
        while i < n && (in_comment || v[i] == 32 || v[i] == 9 || v[i] == 10 || v[i] == 13
            || v[i] == 44 || v[i] == 35)
            invariant
                n == v@.len(),
                i <= n,
                i_at <= i,
                skip_trivia(v@, i_at, false) == skip_trivia(v@, i as int, in_comment),
            decreases n - i,
        {
            if in_comment {
                if v[i] == 10 {
                    in_comment = false;
                }
            } else if v[i] == 35 {
                in_comment = true;
            }
            i = i + 1;
        }
        proof {
            assert(skip_trivia(v@, i_at, false) == i as int);
        }
        if i == n {
            break;
        }
        let b = v[i];
        let ghost j = i as int;
        if b == 95 || (65 <= b && b <= 90) || (97 <= b && b <= 122) || (48 <= b && b <= 57)
            || (b == 45 && i + 1 < n && 48 <= v[i + 1] && v[i + 1] <= 57) {
            let digits_only = !(b == 95 || (65 <= b && b <= 90) || (97 <= b && b <= 122));
            let mut e: usize = i + 1;
            while e < n && ((digits_only && 48 <= v[e] && v[e] <= 57) || (!digits_only
                && (v[e] == 95 || (65 <= v[e] && v[e] <= 90) || (97 <= v[e] && v[e] <= 122)
                || (48 <= v[e] && v[e] <= 57))))
                invariant
                    n == v@.len(),
                    e <= n,
                    j + 1 <= e,
                    scan_end(v@, j + 1, digits_only) == scan_end(v@, e as int, digits_only),
                decreases n - e,
            {
                e = e + 1;
            }
            proof {
                assert(scan_end(v@, j + 1, digits_only) == e as int);
            }
            let text = s.substring_ascii(i, e).to_owned();
            let kind = if digits_only { TokKind::IntLit } else { TokKind::Name };
            proof {
                assert(text@ =~= chars_of(v@.subrange(j, e as int)));
            }
            toks.push(Token { kind, text });
            proof {
                assert(tok_views(toks@) =~~= toks0 + seq![
                    TokV { kind: kind, text: chars_of(v@.subrange(j, e as int)) },
                ]);
                if toks_spec(v@, e as int) is Some {
                    assert(toks0 + (seq![TokV { kind: kind, text: chars_of(v@.subrange(j, e as int)) }]
                        + toks_spec(v@, e as int)->Some_0) =~~= tok_views(toks@) + toks_spec(
                        v@,
                        e as int,
                    )->Some_0);
                }
            }
            i = e;
        } else if b == 34 {
            let mut e: usize = i + 1;
            while e < n && v[e] != 34
                invariant
                    n == v@.len(),
                    e <= n,
                    j + 1 <= e,
                    quote_end(v@, j + 1) == quote_end(v@, e as int),
                decreases n - e,
            {
                e = e + 1;
            }
            proof {
                assert(quote_end(v@, j + 1) == e as int);
            }
            if e == n {
                return None;
            }
            let text = s.substring_ascii(i + 1, e).to_owned();
            proof {
                assert(text@ =~= chars_of(v@.subrange(j + 1, e as int)));
            }
            toks.push(Token { kind: TokKind::StrLit, text });
            proof {
                assert(tok_views(toks@) =~~= toks0 + seq![
                    TokV { kind: TokKind::StrLit, text: chars_of(v@.subrange(j + 1, e as int)) },
                ]);
                if toks_spec(v@, e + 1) is Some {
                    assert(toks0 + (seq![
                        TokV { kind: TokKind::StrLit, text: chars_of(v@.subrange(j + 1, e as int)) },
                    ] + toks_spec(v@, e + 1)->Some_0) =~~= tok_views(toks@) + toks_spec(
                        v@,
                        e + 1,
                    )->Some_0);
                }
            }
            i = e + 1;
        } else if b == 46 {
            if n - i > 2 && v[i + 1] == 46 && v[i + 2] == 46 {
                toks.push(Token { kind: TokKind::Spread, text: String::new() });
                proof {
                    assert(tok_views(toks@) =~~= toks0 + seq![
                        TokV { kind: TokKind::Spread, text: Seq::<char>::empty() },
                    ]);
                    if toks_spec(v@, j + 3) is Some {
                        assert(toks0 + (seq![TokV { kind: TokKind::Spread, text: Seq::<char>::empty() }]
                            + toks_spec(v@, j + 3)->Some_0) =~~= tok_views(toks@)
                            + toks_spec(v@, j + 3)->Some_0);
                    }
                }
                i = i + 3;
            } else {
                return None;
            }
        } else {
            match punct_token(b) {
                Some(kind) => {
                    toks.push(Token { kind, text: String::new() });
                    proof {
                        assert(tok_views(toks@) =~~= toks0 + seq![
                            TokV { kind: kind, text: Seq::<char>::empty() },
                        ]);
                        if toks_spec(v@, j + 1) is Some {
                            assert(toks0 + (seq![TokV { kind: kind, text: Seq::<char>::empty() }]
                                + toks_spec(v@, j + 1)->Some_0) =~~= tok_views(toks@)
                                + toks_spec(v@, j + 1)->Some_0);
                        }
                    }
                    i = i + 1;
                },
                None => {
                    return None;
                },
            }
        }
    }
    proof {
        assert(toks_spec(v@, i as int) == Some(Seq::<TokV>::empty()));
        assert(tok_views(toks@) + Seq::<TokV>::empty() =~~= tok_views(
            toks@,
        ));
    }
    Some(toks)
}

} // verus!
