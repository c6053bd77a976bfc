//! The textual grammar of nested integrals:
//! `Int_<lower>^<upper> ... 1 dx<name> ...`, with `//` comments and
//! whitespace between tokens. The integral headers come first, then the
//! literal `1`, then one `d<name>` declaration per header, consumed
//! right-to-left to reconstruct the specification's emission order.

use crate::integral::Bound;
use crate::integral::IntegralSpec;
use crate::integral::has_var;
use crate::integral::var_index_of;
use vstd::prelude::*;

verus! {

/// A lexical token of the integral grammar.
pub enum Token {
    Header(String, String),
    OneLit,
    Footer(String),
}

/// The ghost form of a token.
pub enum TokenV {
    Header(Seq<char>, Seq<char>),
    OneLit,
    Footer(Seq<char>),
}

/// The ghost form of an executable token.
pub open spec fn token_view(t: Token) -> TokenV {
    match t {
        Token::Header(lo, hi) => TokenV::Header(lo@, hi@),
        Token::OneLit => TokenV::OneLit,
        Token::Footer(nm) => TokenV::Footer(nm@),
    }
}

pub open spec fn tokens_view(ts: Seq<Token>) -> Seq<TokenV> {
    ts.map_values(|t: Token| token_view(t))
}

/// Characters the grammar accepts inside bounds and variable names.
pub open spec fn is_ident_char(c: char) -> bool {
    ('a' <= c && c <= 'z') || ('A' <= c && c <= 'Z') || ('0' <= c && c <= '9') || c == '_'
}

pub open spec fn is_ws_char(c: char) -> bool {
    c == ' ' || c == '\t' || c == '\r' || c == '\n'
}

/// The position after the whitespace and `//` comments from `i` on;
/// `in_comment` tracks an open line comment.
pub open spec fn skip_ws(s: Seq<char>, i: int, in_comment: bool) -> int
    decreases s.len() - i,
{
    if i < 0 || i >= s.len() {
        s.len() as int
    } else if in_comment {
        if s[i] == '\n' {
            skip_ws(s, i + 1, false)
        } else {
            skip_ws(s, i + 1, true)
        }
    } else if is_ws_char(s[i]) {
        skip_ws(s, i + 1, false)
    } else if s[i] == '/' && i + 1 < s.len() && s[i + 1] == '/' {
        skip_ws(s, i + 2, true)
    } else {
        i
    }
}

/// The maximal run of identifier characters starting at `i`.
pub open spec fn token_run(s: Seq<char>, i: int) -> Seq<char>
    decreases s.len() - i,
{
    if i < 0 || i >= s.len() || !is_ident_char(s[i]) {
        Seq::<char>::empty()
    } else {
        seq![s[i]] + token_run(s, i + 1)
    }
}

/// Whether the four characters `Int_` stand at `i`.
pub open spec fn header_at(s: Seq<char>, i: int) -> bool {
    i + 4 <= s.len() && s[i] == 'I' && s[i + 1] == 'n' && s[i + 2] == 't' && s[i + 3] == '_'
}

/// One header `Int_<lower>^<upper>` at `i`: the bounds and the position
/// after the upper bound, or `None` if malformed.
pub open spec fn header_parse(s: Seq<char>, i: int) -> Option<((Seq<char>, Seq<char>), int)> {
    let lo = token_run(s, i + 4);
    let cpos = i + 4 + lo.len();
    if lo.len() == 0 {
        Option::None
    } else if !(cpos < s.len() && s[cpos] == '^') {
        Option::None
    } else {
        let hi = token_run(s, cpos + 1);
        if hi.len() == 0 {
            Option::None
        } else {
            Option::Some(((lo, hi), cpos + 1 + hi.len()))
        }
    }
}

proof fn lemma_skip_ws_ge(s: Seq<char>, i: int, in_comment: bool)
    requires
        0 <= i <= s.len(),
    ensures
        i <= skip_ws(s, i, in_comment) <= s.len(),
    decreases s.len() - i,
{
    if i < s.len() {
        if in_comment {
            lemma_skip_ws_ge(s, i + 1, false);
            lemma_skip_ws_ge(s, i + 1, true);
        } else if is_ws_char(s[i]) {
            lemma_skip_ws_ge(s, i + 1, false);
        } else if s[i] == '/' && i + 1 < s.len() && s[i + 1] == '/' {
            lemma_skip_ws_ge(s, i + 2, true);
        }
    }
}

proof fn lemma_token_run_len(s: Seq<char>, i: int)
    requires
        0 <= i,
    ensures
        i + token_run(s, i).len() <= s.len() || token_run(s, i).len() == 0,
        token_run(s, i).len() >= 0,
    decreases s.len() - i,
{
    if !(i >= s.len() || !is_ident_char(s[i])) {
        lemma_token_run_len(s, i + 1);
    }
}

/// The token sequence from position `i` on, or `None` when the text does
/// not lex.
pub open spec fn spec_tokens(s: Seq<char>, i: int) -> Option<Seq<TokenV>>
    decreases s.len() - i + 1
        via spec_tokens_dec
{
    let j = skip_ws(s, i, false);
    if i < 0 {
        Option::None
    } else if j >= s.len() {
        Option::Some(Seq::<TokenV>::empty())
    } else if header_at(s, j) {
        match header_parse(s, j) {
            Option::None => Option::None,
            Option::Some(((lo, hi), j2)) => match spec_tokens(s, j2) {
                Option::None => Option::None,
                Option::Some(rest) => Option::Some(seq![TokenV::Header(lo, hi)] + rest),
            },
        }
    } else if s[j] == '1' && token_run(s, j) == seq!['1'] {
        match spec_tokens(s, j + 1) {
            Option::None => Option::None,
            Option::Some(rest) => Option::Some(seq![TokenV::OneLit] + rest),
        }
    } else if s[j] == 'd' && token_run(s, j).len() >= 2 {
        match spec_tokens(s, j + token_run(s, j).len()) {
            Option::None => Option::None,
            Option::Some(rest) => Option::Some(
                seq![TokenV::Footer(token_run(s, j).skip(1))] + rest,
            ),
        }
    } else {
        Option::None
    }
}

#[via_fn]
proof fn spec_tokens_dec(s: Seq<char>, i: int) {
    if 0 <= i && i <= s.len() {
        lemma_skip_ws_ge(s, i, false);
        let j = skip_ws(s, i, false);
        if j < s.len() {
            if header_at(s, j) {
                lemma_token_run_len(s, j + 4);
                let lo = token_run(s, j + 4);
                let cpos = j + 4 + lo.len();
                lemma_token_run_len(s, cpos + 1);
            } else if s[j] == 'd' {
                lemma_token_run_len(s, j);
            }
        }
    }
}

fn ident_char(c: char) -> (r: bool)
    ensures
        r == is_ident_char(c),
{
    ('a' <= c && c <= 'z') || ('A' <= c && c <= 'Z') || ('0' <= c && c <= '9') || c == '_'
}

fn ws_char(c: char) -> (r: bool)
    ensures
        r == is_ws_char(c),
{
    c == ' ' || c == '\t' || c == '\r' || c == '\n'
}

/// Advances past whitespace and `//` comments.
fn skip_ws_exec(s: &str, start: usize, len: usize) -> (r: usize)
    requires
        start <= len,
        len == s@.len(),
    ensures
        r as int == skip_ws(s@, start as int, false),
        start <= r <= len,
{
    let mut i = start;
    let mut in_comment = false;
    loop
        invariant
            i <= len,
            len == s@.len(),
            start <= i,
            skip_ws(s@, start as int, false) == skip_ws(s@, i as int, in_comment),
        ensures
            i as int == skip_ws(s@, start as int, false),
        decreases len - i + (if in_comment {
            1int
        } else {
            0int
        }),
    {
        if i >= len {
            proof {
                lemma_skip_ws_ge(s@, i as int, in_comment);
            }
            return i;
        }
        let c = s.get_char(i);
        if in_comment {
            if c == '\n' {
                in_comment = false;
            }
            i = i + 1;
        } else if ws_char(c) {
            i = i + 1;
        } else if c == '/' && i + 1 < len && s.get_char(i + 1) == '/' {
            in_comment = true;
            i = i + 2;
        } else {
            return i;
        }
    }
}

/// The end of the identifier run starting at `start`.
fn token_run_exec(s: &str, start: usize, len: usize) -> (r: usize)
    requires
        start <= len,
        len == s@.len(),
    ensures
        start <= r <= len,
        token_run(s@, start as int) == s@.subrange(start as int, r as int),
        r as int == start + token_run(s@, start as int).len(),
{
    let mut e = start;
    while e < len && ident_char(s.get_char(e))
        invariant
            start <= e <= len,
            len == s@.len(),
            forall|k: int| start <= k < e ==> is_ident_char(s@[k]),
        decreases len - e,
    {
        e = e + 1;
    }
    proof {
        lemma_token_run_chars(s@, start as int, e as int);
    }
    e
}

proof fn lemma_token_run_chars(s: Seq<char>, i: int, e: int)
    requires
        0 <= i <= e <= s.len(),
        forall|k: int| i <= k < e ==> is_ident_char(s[k]),
        e == s.len() || !is_ident_char(s[e]),
    ensures
        token_run(s, i) == s.subrange(i, e),
    decreases e - i,
{
    if i == e {
        assert(token_run(s, i) =~= s.subrange(i, e));
    } else {
        lemma_token_run_chars(s, i + 1, e);
        assert(token_run(s, i) =~= s.subrange(i, e));
    }
}

/// The number of leading header tokens.
pub open spec fn count_lead_headers(ts: Seq<TokenV>) -> int
    decreases ts.len(),
{
    if ts.len() > 0 && (ts[0] is Header) {
        1 + count_lead_headers(ts.skip(1))
    } else {
        0
    }
}

proof fn lemma_lead_headers(ts: Seq<TokenV>)
    ensures
        0 <= count_lead_headers(ts) <= ts.len(),
        forall|k: int| 0 <= k < count_lead_headers(ts) ==> (#[trigger] ts[k]) is Header,
        count_lead_headers(ts) == ts.len() || !(ts[count_lead_headers(ts)] is Header),
    decreases ts.len(),
{
    if ts.len() > 0 && (ts[0] is Header) {
        lemma_lead_headers(ts.skip(1));
        let h = count_lead_headers(ts);
        assert forall|k: int| 0 <= k < h implies (#[trigger] ts[k]) is Header by {
            if k > 0 {
                assert(ts.skip(1)[k - 1] == ts[k]);
            }
        }
        if h < ts.len() {
            assert(ts.skip(1)[h - 1] == ts[h]);
        }
    }
}

/// Well-shaped token stream: headers, then the literal 1, then footers.
pub open spec fn structure_ok(ts: Seq<TokenV>) -> bool {
    let h = count_lead_headers(ts);
    &&& h < ts.len()
    &&& ts[h] is OneLit
    &&& forall|k: int| h < k < ts.len() ==> (#[trigger] ts[k]) is Footer
}

/// The raw bound pairs of the leading headers.
pub open spec fn headers_of(ts: Seq<TokenV>) -> Seq<(Seq<char>, Seq<char>)> {
    Seq::new(
        count_lead_headers(ts) as nat,
        |k: int| (ts[k]->Header_0, ts[k]->Header_1),
    )
}

/// The declared variable names, in footer order.
pub open spec fn footers_of(ts: Seq<TokenV>) -> Seq<Seq<char>> {
    let h = count_lead_headers(ts);
    Seq::new((ts.len() - h - 1) as nat, |k: int| ts[h + 1 + k]->Footer_0)
}

pub open spec fn name_in(names: Seq<Seq<char>>, nm: Seq<char>) -> bool {
    exists|k: int| 0 <= k < names.len() && names[k] == nm
}

pub open spec fn name_index(names: Seq<Seq<char>>, nm: Seq<char>) -> int {
    choose|k: int| 0 <= k < names.len() && names[k] == nm
}

/// The name table: footers registered left to right, duplicates dropped.
pub open spec fn reg_names(fs: Seq<Seq<char>>) -> Seq<Seq<char>>
    decreases fs.len(),
{
    if fs.len() == 0 {
        Seq::<Seq<char>>::empty()
    } else {
        let prev = reg_names(fs.drop_last());
        if name_in(prev, fs.last()) {
            prev
        } else {
            prev.push(fs.last())
        }
    }
}

/// A raw bound resolves to 0, 1, or a reference to a declared variable.
pub open spec fn resolve_bound(names: Seq<Seq<char>>, b: Seq<char>) -> Option<Bound> {
    if b == seq!['0'] {
        Option::Some(Bound::Zero)
    } else if b == seq!['1'] {
        Option::Some(Bound::One)
    } else if name_in(names, b) {
        Option::Some(Bound::Var(name_index(names, b) as usize))
    } else {
        Option::None
    }
}

/// The ghost names of a name table.
pub open spec fn views_of(names: Seq<String>) -> Seq<Seq<char>> {
    names.map_values(|s: String| s@)
}

/// Assembles a token stream into a name table and an element list: one
/// step per footer, its bounds taken from the headers right-to-left.
pub open spec fn spec_assemble(ts: Seq<TokenV>) -> Option<
    (Seq<Seq<char>>, Seq<(usize, Bound, Bound)>),
> {
    if !structure_ok(ts) {
        Option::None
    } else {
        let hs = headers_of(ts);
        let fs = footers_of(ts);
        if hs.len() != fs.len() {
            Option::None
        } else {
            let names = reg_names(fs);
            let n = fs.len() as int;
            if exists|i: int|
                0 <= i < n && (((#[trigger] resolve_bound(names, hs[n - 1 - i].0)) is None) || (
                resolve_bound(names, hs[n - 1 - i].1) is None)) {
                Option::None
            } else {
                Option::Some(
                    (
                        names,
                        Seq::new(
                            n as nat,
                            |i: int|
                                (
                                    name_index(names, fs[i]) as usize,
                                    resolve_bound(names, hs[n - 1 - i].0)->Some_0,
                                    resolve_bound(names, hs[n - 1 - i].1)->Some_0,
                                ),
                        ),
                    ),
                )
            }
        }
    }
}

/// What the whole grammar accepts: the lexed tokens, assembled.
pub open spec fn spec_parse(s: Seq<char>) -> Option<(Seq<Seq<char>>, Seq<(usize, Bound, Bound)>)> {
    match spec_tokens(s, 0) {
        Option::None => Option::None,
        Option::Some(ts) => spec_assemble(ts),
    }
}

/// Character-wise equality of two text slices.
fn str_eq(a: &str, b: &str) -> (r: bool)
    ensures
        r == (a@ == b@),
{
    let la = a.unicode_len();
    let lb = b.unicode_len();
    if la != lb {
        proof {
            assert(a@ != b@);
        }
        return false;
    }
    let mut k: usize = 0;
    while k < la
        invariant
            la == a@.len(),
            la == b@.len(),
            0 <= k <= la,
            forall|p: int| 0 <= p < k ==> a@[p] == b@[p],
        decreases la - k,
    {
        if a.get_char(k) != b.get_char(k) {
            proof {
                assert(a@[k as int] != b@[k as int]);
            }
            return false;
        }
        k = k + 1;
    }
    proof {
        assert(a@ =~= b@);
    }
    true
}

/// Resolves one raw bound against the registered names: `0`, `1`, or a
/// declared variable; an unknown name is a structured error.
pub fn parse_bound(input: &str, table: &IntegralSpec) -> (r: Result<Bound, String>)
    requires
        table.names_distinct(),
    ensures
        match resolve_bound(views_of(table.var_names@), input@) {
            Option::Some(b) => r == Result::<Bound, String>::Ok(b),
            Option::None => r is Err,
        },
{
    let len = input.unicode_len();
    if len == 1 && input.get_char(0) == '0' {
        proof {
            assert(input@ =~= seq!['0']);
        }
        return Ok(Bound::Zero);
    }
    if len == 1 && input.get_char(0) == '1' {
        proof {
            assert(input@ =~= seq!['1']);
        }
        return Ok(Bound::One);
    }
    proof {
        assert(input@ != seq!['0']) by {
            if input@ == seq!['0'] {
                assert(input@.len() == 1 && input@[0] == '0');
            }
        }
        assert(input@ != seq!['1']) by {
            if input@ == seq!['1'] {
                assert(input@.len() == 1 && input@[0] == '1');
            }
        }
    }
    let nn = table.var_names.len();
    let mut k: usize = 0;
    while k < nn
        invariant
            nn == table.var_names@.len(),
            table.names_distinct(),
            0 <= k <= nn,
            input@ != seq!['0'],
            input@ != seq!['1'],
            forall|p: int| 0 <= p < k ==> (#[trigger] table.var_names@[p])@ != input@,
        decreases nn - k,
    {
        if str_eq(input, table.var_names[k].as_str()) {
            proof {
                let names = views_of(table.var_names@);
                assert(names[k as int] == input@);
                assert(name_in(names, input@));
                let k2 = name_index(names, input@);
                assert(0 <= k2 < names.len() && names[k2] == input@);
                assert(k2 == k as int) by {
                    if k2 != k as int {
                        assert(table.var_names@[k2]@ == table.var_names@[k as int]@);
                    }
                }
            }
            return Ok(Bound::Var(k));
        }
        k = k + 1;
    }
    proof {
        assert(!name_in(views_of(table.var_names@), input@)) by {
            if name_in(views_of(table.var_names@), input@) {
                let k2 = choose|k2: int|
                    0 <= k2 < views_of(table.var_names@).len() && views_of(table.var_names@)[k2]
                        == input@;
                assert(table.var_names@[k2]@ == input@);
            }
        }
    }
    Err(String::from_str("no such variable"))
}

/// Every declared name is in the name table.
proof fn lemma_reg_contains(fs: Seq<Seq<char>>, i: int)
    requires
        0 <= i < fs.len(),
    ensures
        name_in(reg_names(fs), fs[i]),
    decreases fs.len(),
{
    let prev = reg_names(fs.drop_last());
    let cur = reg_names(fs);
    if i == fs.len() - 1 {
        if name_in(prev, fs.last()) {
            let k = choose|k: int| 0 <= k < prev.len() && prev[k] == fs.last();
            assert(cur[k] == fs.last());
        } else {
            assert(cur[prev.len() as int] == fs.last());
        }
    } else {
        assert(fs.drop_last()[i] == fs[i]);
        lemma_reg_contains(fs.drop_last(), i);
        let k = choose|k: int| 0 <= k < prev.len() && prev[k] == fs[i];
        assert(cur[k] == fs[i]);
    }
}

/// The entry point of the grammar: splits the text into tokens, which
/// `parse` then assembles into a specification.
pub struct IntegralParser {}

impl IntegralParser {
    /// Splits the source text into its tokens, or reports the position where
    /// it fails to lex.
    pub fn tokenize(source: &str) -> (r: Result<Vec<Token>, String>)
        ensures
            match r {
                Result::Ok(ts) => spec_tokens(source@, 0) == Option::Some(tokens_view(ts@)),
                Result::Err(_) => spec_tokens(source@, 0) is None,
            },
    {
        let len = source.unicode_len();
        let mut toks: Vec<Token> = Vec::new();
        let mut i: usize = 0;
        loop
            invariant
                i <= len,
                len == source@.len(),
                match spec_tokens(source@, i as int) {
                    Option::Some(rest) => spec_tokens(source@, 0) == Option::Some(
                        tokens_view(toks@) + rest,
                    ),
                    Option::None => spec_tokens(source@, 0) is None,
                },
            decreases len - i,
        {
            let ghost toks0 = toks@;
            let j = skip_ws_exec(source, i, len);
            if j >= len {
                proof {
                    assert(spec_tokens(source@, i as int) == Option::Some(Seq::<TokenV>::empty()));
                    assert(tokens_view(toks@) + Seq::<TokenV>::empty() =~= tokens_view(toks@));
                }
                return Ok(toks);
            }
            let c0 = source.get_char(j);
            if len - j >= 4 && c0 == 'I' && source.get_char(j + 1) == 'n' && source.get_char(j + 2)
                == 't' && source.get_char(j + 3) == '_' {
                proof {
                    assert(header_at(source@, j as int));
                }
                let lo_end = token_run_exec(source, j + 4, len);
                if lo_end == j + 4 {
                    proof {
                        assert(header_parse(source@, j as int) is None);
                    }
                    return Err(String::from_str("malformed integral bound"));
                }
                if lo_end >= len || source.get_char(lo_end) != '^' {
                    proof {
                        assert(header_parse(source@, j as int) is None);
                    }
                    return Err(String::from_str("malformed integral bound"));
                }
                let hi_end = token_run_exec(source, lo_end + 1, len);
                if hi_end == lo_end + 1 {
                    proof {
                        assert(header_parse(source@, j as int) is None);
                    }
                    return Err(String::from_str("malformed integral bound"));
                }
                let lo = String::from_str(source.substring_char(j + 4, lo_end));
                let hi = String::from_str(source.substring_char(lo_end + 1, hi_end));
                proof {
                    assert(header_parse(source@, j as int) == Option::Some(
                        ((lo@, hi@), hi_end as int),
                    ));
                }
                toks.push(Token::Header(lo, hi));
                proof {
                    assert(tokens_view(toks@) =~= tokens_view(toks0) + seq![
                        token_view(toks@[toks@.len() - 1]),
                    ]);
                    if spec_tokens(source@, hi_end as int) is Some {
                        let rest = spec_tokens(source@, hi_end as int)->Some_0;
                        assert(spec_tokens(source@, i as int) == Option::Some(
                            seq![token_view(toks@[toks@.len() - 1])] + rest,
                        ));
                        assert(tokens_view(toks0) + (seq![token_view(toks@[toks@.len() - 1])] + rest)
                            =~= tokens_view(toks@) + rest);
                    }
                }
                i = hi_end;
            } else if c0 == '1' {
                let e = token_run_exec(source, j, len);
                if e != j + 1 {
                    proof {
                        assert(is_ident_char(source@[j as int]));
                        assert(token_run(source@, j as int).len() >= 1) by {
                            assert(token_run(source@, j as int)[0] == source@[j as int]);
                        }
                        assert(token_run(source@, j as int) != seq!['1']);
                        assert(spec_tokens(source@, i as int) is None);
                    }
                    return Err(String::from_str("unexpected token"));
                }
                proof {
                    assert(token_run(source@, j as int) =~= seq!['1']);
                }
                toks.push(Token::OneLit);
                proof {
                    assert(tokens_view(toks@) =~= tokens_view(toks0) + seq![TokenV::OneLit]);
                    if spec_tokens(source@, j as int + 1) is Some {
                        let rest = spec_tokens(source@, j as int + 1)->Some_0;
                        assert(spec_tokens(source@, i as int) == Option::Some(
                            seq![TokenV::OneLit] + rest,
                        ));
                        assert(tokens_view(toks0) + (seq![TokenV::OneLit] + rest) =~= tokens_view(
                            toks@,
                        ) + rest);
                    }
                }
                i = j + 1;
            } else if c0 == 'd' {
                let e = token_run_exec(source, j, len);
                if e - j < 2 {
                    proof {
                        assert(token_run(source@, j as int).len() < 2);
                        assert(spec_tokens(source@, i as int) is None);
                    }
                    return Err(String::from_str("unexpected token"));
                }
                let name = String::from_str(source.substring_char(j + 1, e));
                proof {
                    assert(token_run(source@, j as int).skip(1) =~= name@);
                }
                toks.push(Token::Footer(name));
                proof {
                    assert(tokens_view(toks@) =~= tokens_view(toks0) + seq![
                        token_view(toks@[toks@.len() - 1]),
                    ]);
                    if spec_tokens(source@, e as int) is Some {
                        let rest = spec_tokens(source@, e as int)->Some_0;
                        assert(spec_tokens(source@, i as int) == Option::Some(
                            seq![token_view(toks@[toks@.len() - 1])] + rest,
                        ));
                        assert(tokens_view(toks0) + (seq![token_view(toks@[toks@.len() - 1])] + rest)
                            =~= tokens_view(toks@) + rest);
                    }
                }
                i = e;
            } else {
                proof {
                    assert(spec_tokens(source@, i as int) is None);
                }
                return Err(String::from_str("unexpected token"));
            }
        }
    }
}

/// Parses the textual integral into a specification: the headers give the
/// bounds, the trailing `d<name>` declarations give the variables, and the
/// i-th declared variable takes the bounds of the i-th header from the
/// right. Fails on text the grammar refuses, on a header/declaration count
/// mismatch, and on a bound naming an undeclared variable.
#[verifier::rlimit(100)]
pub fn parse(source: &str) -> (r: Result<IntegralSpec, String>)
    ensures
        match spec_parse(source@) {
            Option::Some(md) => r is Ok && views_of(r->Ok_0.var_names@) == md.0
                && r->Ok_0.elements@ == md.1,
            Option::None => r is Err,
        },
{
    let toks = match IntegralParser::tokenize(source) {
        Ok(t) => t,
        Err(e) => {
            return Err(e);
        },
    };
    let ghost tv = tokens_view(toks@);
    proof {
        lemma_lead_headers(tv);
    }
    // Structure scan: headers, then the literal 1, then declarations.
    let mut hb: Vec<(String, String)> = Vec::new();
    let mut fnames: Vec<String> = Vec::new();
    let mut phase: u8 = 0;
    let ghost mut hpos: int = 0;
    let n_toks = toks.len();
    let mut k: usize = 0;
    while k < n_toks
        invariant
            n_toks == toks@.len(),
            tv == tokens_view(toks@),
            tv.len() == n_toks,
            spec_tokens(source@, 0) == Option::Some(tv),
            0 <= k <= n_toks,
            phase == 0 || phase == 1,
            phase == 0 ==> {
                &&& (forall|p: int| 0 <= p < k ==> (#[trigger] tv[p]) is Header)
                &&& hb@.len() == k
                &&& fnames@.len() == 0
            },
            phase == 1 ==> {
                &&& 0 <= hpos < k
                &&& (forall|p: int| 0 <= p < hpos ==> (#[trigger] tv[p]) is Header)
                &&& tv[hpos] is OneLit
                &&& (forall|p: int| hpos < p < k ==> (#[trigger] tv[p]) is Footer)
                &&& hb@.len() == hpos
                &&& fnames@.len() == k - hpos - 1
                &&& (forall|q: int|
                    0 <= q < fnames@.len() ==> (#[trigger] fnames@[q])@ == tv[hpos + 1
                        + q]->Footer_0)
            },
            forall|p: int|
                0 <= p < hb@.len() ==> ((#[trigger] hb@[p]).0@ == tv[p]->Header_0 && hb@[p].1@
                    == tv[p]->Header_1),
        decreases n_toks - k,
    {
        let kk = k;
        match &toks[kk] {
            Token::Header(lo, hi) => {
                if phase != 0 {
                    proof {
                        lemma_lead_headers(tv);
                        let h = count_lead_headers(tv);
                        assert(h == hpos) by {
                            if h < hpos {
                                assert(tv[h] is Header);
                            }
                            if h > hpos {
                                assert(tv[hpos] is Header);
                            }
                        }
                        assert(tv[kk as int] is Header);
                        assert(!structure_ok(tv));
                    }
                    return Err(String::from_str("integral body out of place"));
                }
                hb.push((lo.clone(), hi.clone()));
                proof {
                    assert(tv[kk as int] == token_view(toks@[kk as int]));
                }
            },
            Token::OneLit => {
                if phase != 0 {
                    proof {
                        lemma_lead_headers(tv);
                        let h = count_lead_headers(tv);
                        assert(h == hpos) by {
                            if h < hpos {
                                assert(tv[h] is Header);
                            }
                            if h > hpos {
                                assert(tv[hpos] is Header);
                            }
                        }
                        assert(tv[kk as int] is OneLit);
                        assert(!structure_ok(tv));
                    }
                    return Err(String::from_str("integral body out of place"));
                }
                phase = 1;
                proof {
                    hpos = kk as int;
                    assert(tv[kk as int] is OneLit);
                }
            },
            Token::Footer(nm) => {
                if phase != 1 {
                    proof {
                        lemma_lead_headers(tv);
                        let h = count_lead_headers(tv);
                        assert(tv[kk as int] is Footer);
                        assert(h == kk as int) by {
                            if h < kk as int {
                                assert(tv[h] is Header);
                            }
                            if h > kk as int {
                                assert(tv[kk as int] is Header);
                            }
                        }
                        assert(!structure_ok(tv));
                    }
                    return Err(String::from_str("variable declaration out of place"));
                }
                fnames.push(nm.clone());
                proof {
                    assert(tv[kk as int] == token_view(toks@[kk as int]));
                }
            },
        }
        k = k + 1;
    }
    if phase != 1 {
        proof {
            lemma_lead_headers(tv);
            let h = count_lead_headers(tv);
            assert(h == tv.len() as int) by {
                if h < tv.len() {
                    assert(tv[h] is Header);
                }
            }
            assert(!structure_ok(tv));
        }
        return Err(String::from_str("missing integral body"));
    }
    proof {
        lemma_lead_headers(tv);
        let h = count_lead_headers(tv);
        assert(h == hpos) by {
            if h < hpos {
                assert(tv[h] is Header);
            }
            if h > hpos {
                assert(tv[hpos] is Header);
            }
        }
        assert(structure_ok(tv));
        assert(headers_of(tv) =~= Seq::new(
            hb@.len() as nat,
            |p: int| (hb@[p].0@, hb@[p].1@),
        ));
        assert(footers_of(tv) =~= Seq::new(fnames@.len() as nat, |q: int| fnames@[q]@));
    }
    let ghost fview = footers_of(tv);

    // Register the declared names, duplicates dropped.
    let mut table = IntegralSpec::new();
    let nf = fnames.len();
    let mut q: usize = 0;
    while q < nf
        invariant
            nf == fnames@.len(),
            fview.len() == nf,
            spec_tokens(source@, 0) == Option::Some(tv),
            forall|q2: int| 0 <= q2 < nf ==> (#[trigger] fnames@[q2])@ == fview[q2],
            0 <= q <= nf,
            table.names_distinct(),
            table.elements@.len() == 0,
            views_of(table.var_names@) == reg_names(fview.take(q as int)),
        decreases nf - q,
    {
        let ghost names0 = views_of(table.var_names@);
        let nm = fnames[q].clone();
        proof {
            assert(nm@ == fview[q as int]);
            assert(fview.take(q as int + 1).drop_last() =~= fview.take(q as int));
            assert(fview.take(q as int + 1).last() == fview[q as int]);
            assert(has_var(table.var_names@, nm@) == name_in(names0, fview[q as int])) by {
                if has_var(table.var_names@, nm@) {
                    let w = choose|w: int|
                        0 <= w < table.var_names@.len() && (#[trigger] table.var_names@[w])@ == nm@;
                    assert(names0[w] == nm@);
                }
                if name_in(names0, fview[q as int]) {
                    let w = choose|w: int| 0 <= w < names0.len() && names0[w] == fview[q as int];
                    assert(table.var_names@[w]@ == nm@);
                }
            }
        }
        let _ = table.register_var(nm);
        proof {
            assert(views_of(table.var_names@) =~= reg_names(fview.take(q as int + 1)));
        }
        q = q + 1;
    }
    proof {
        assert(fview.take(nf as int) =~= fview);
    }
    let ghost names = reg_names(fview);

    // Resolve each declared name to its table index.
    let mut int_vars: Vec<usize> = Vec::new();
    let mut q2: usize = 0;
    while q2 < nf
        invariant
            nf == fnames@.len(),
            fview.len() == nf,
            spec_tokens(source@, 0) == Option::Some(tv),
            forall|p: int| 0 <= p < nf ==> (#[trigger] fnames@[p])@ == fview[p],
            0 <= q2 <= nf,
            table.names_distinct(),
            names == reg_names(fview),
            views_of(table.var_names@) == names,
            int_vars@.len() == q2,
            forall|p: int|
                0 <= p < q2 ==> (#[trigger] int_vars@[p]) as int == name_index(names, fview[p]),
        decreases nf - q2,
    {
        let nm = fnames[q2].clone();
        proof {
            lemma_reg_contains(fview, q2 as int);
            assert(has_var(table.var_names@, nm@)) by {
                let w = choose|w: int| 0 <= w < names.len() && names[w] == fview[q2 as int];
                assert(table.var_names@[w]@ == nm@);
            }
        }
        let v = table.var_ref(nm);
        proof {
            let vi = var_index_of(table.var_names@, fview[q2 as int]);
            let ni = name_index(names, fview[q2 as int]);
            assert(0 <= ni < names.len() && names[ni] == fview[q2 as int]);
            assert(table.var_names@[ni]@ == fview[q2 as int]);
            assert(vi == ni) by {
                if vi != ni {
                    assert(table.var_names@[vi]@ == table.var_names@[ni]@);
                }
            }
        }
        int_vars.push(v);
        q2 = q2 + 1;
    }

    // One step per declaration, bounds taken right-to-left.
    let nh = hb.len();
    if nh != nf {
        proof {
            assert(headers_of(tv).len() != footers_of(tv).len());
        }
        return Err(String::from_str("mismatched bounds and declarations"));
    }
    let ghost hs = headers_of(tv);
    let ghost names2 = names;
    let ghost expected = Seq::new(
        nf as nat,
        |p: int|
            (
                (name_index(names2, footers_of(tv)[p]) as usize),
                resolve_bound(names2, hs[nf - 1 - p].0)->Some_0,
                resolve_bound(names2, hs[nf - 1 - p].1)->Some_0,
            ),
    );
    let mut elements: Vec<(usize, Bound, Bound)> = Vec::new();
    let mut i: usize = 0;
    while i < nf
        invariant
            nf == fnames@.len(),
            nh == nf,
            nh == hb@.len(),
            spec_tokens(source@, 0) == Option::Some(tv),
            structure_ok(tv),
            hs == headers_of(tv),
            fview == footers_of(tv),
            hs.len() == nh,
            fview.len() == nf,
            names2 == names,
            expected == Seq::new(
                nf as nat,
                |p: int|
                    (
                        (name_index(names2, footers_of(tv)[p]) as usize),
                        resolve_bound(names2, hs[nf - 1 - p].0)->Some_0,
                        resolve_bound(names2, hs[nf - 1 - p].1)->Some_0,
                    ),
            ),
            forall|p: int|
                0 <= p < nh ==> ((#[trigger] hb@[p]).0@ == hs[p].0 && hb@[p].1@ == hs[p].1),
            0 <= i <= nf,
            table.names_distinct(),
            names == reg_names(fview),
            views_of(table.var_names@) == names,
            int_vars@.len() == nf,
            forall|p: int|
                0 <= p < nf ==> (#[trigger] int_vars@[p]) as int == name_index(names, fview[p]),
            elements@ == expected.take(i as int),
            forall|q: int|
                nf - i <= q < nf ==> ((#[trigger] resolve_bound(names, hs[q].0)) is Some
                    && resolve_bound(names, hs[q].1) is Some),
        decreases nf - i,
    {
        let pos = nh - 1 - i;
        let b1 = match parse_bound(hb[pos].0.as_str(), &table) {
            Ok(b) => b,
            Err(e) => {
                proof {
                    assert(resolve_bound(names, hs[nf - 1 - i as int].0) is None);
                    assert(exists|p: int|
                        0 <= p < nf && (((#[trigger] resolve_bound(names, hs[nf - 1 - p].0))
                            is None) || (resolve_bound(names, hs[nf - 1 - p].1) is None))) by {
                        assert(0 <= (i as int) < nf && (resolve_bound(
                            names,
                            hs[nf - 1 - i as int].0,
                        ) is None));
                    }
                }
                return Err(e);
            },
        };
        let b2 = match parse_bound(hb[pos].1.as_str(), &table) {
            Ok(b) => b,
            Err(e) => {
                proof {
                    assert(resolve_bound(names, hs[nf - 1 - i as int].1) is None);
                    assert(exists|p: int|
                        0 <= p < nf && (((#[trigger] resolve_bound(names, hs[nf - 1 - p].0))
                            is None) || (resolve_bound(names, hs[nf - 1 - p].1) is None))) by {
                        assert(0 <= (i as int) < nf && (resolve_bound(
                            names,
                            hs[nf - 1 - i as int].1,
                        ) is None));
                    }
                }
                return Err(e);
            },
        };
        let v = int_vars[i];
        proof {
            assert(hb@[pos as int].0@ == hs[pos as int].0);
            assert(hb@[pos as int].1@ == hs[pos as int].1);
            assert(resolve_bound(names, hs[nf - 1 - i as int].0) == Option::Some(b1));
            assert(resolve_bound(names, hs[nf - 1 - i as int].1) == Option::Some(b2));
            assert(v as int == name_index(names, fview[i as int]));
            assert((name_index(names, fview[i as int]) as usize) == v);
            assert(expected[i as int] == ((v, b1, b2)));
        }
        elements.push((v, b1, b2));
        proof {
            assert(elements@ =~= expected.take(i as int + 1));
        }
        i = i + 1;
    }
    let spec = IntegralSpec { var_names: table.var_names, elements };
    proof {
        assert(spec.elements@ =~= expected);
        assert(!(exists|p: int|
            0 <= p < nf && (((#[trigger] resolve_bound(names, hs[nf - 1 - p].0)) is None) || (
            resolve_bound(names, hs[nf - 1 - p].1) is None)))) by {
            if exists|p: int|
                0 <= p < nf && (((#[trigger] resolve_bound(names, hs[nf - 1 - p].0)) is None) || (
                resolve_bound(names, hs[nf - 1 - p].1) is None)) {
                let p = choose|p: int|
                    0 <= p < nf && (((#[trigger] resolve_bound(names, hs[nf - 1 - p].0)) is None)
                        || (resolve_bound(names, hs[nf - 1 - p].1) is None));
                assert(resolve_bound(names, hs[nf - 1 - p].0) is Some && resolve_bound(
                    names,
                    hs[nf - 1 - p].1,
                ) is Some);
            }
        }
        let md = spec_assemble(tv)->Some_0;
        assert(spec.elements@ =~= md.1);
        assert(views_of(spec.var_names@) == md.0);
    }
    Ok(spec)
}

} // verus!
