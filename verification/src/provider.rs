//! Provider brand cleanup: a short brand (`Cloudflare`, `Hetzner`) from an
//! RPSL handle such as `CLOUDFLARENET - Cloudflare, Inc.` and an
//! organisation name such as `Cloudflare, Inc.`.

use vstd::prelude::*;

use crate::text::{
    is_ws, is_whitespace, is_upper, is_lower, lower, lower_seq, to_lower, lower_vec, to_chars,
    chars_eq, string_from_chars,
};

verus! {

// ---------------------------------------------------------------------------
// Word lists
// ---------------------------------------------------------------------------

/// The views of a list of words.
pub open spec fn views(v: Seq<&str>) -> Seq<Seq<char>> {
    v.map_values(|w: &str| w@)
}

/// Words dropped from the end of an organisation name.
pub open spec fn drop_words() -> Seq<Seq<char>> {
    views(seq![
        "inc", "llc", "ltd", "limited", "gmbh", "ag", "corp", "corporation",
        "co", "company", "sa", "sl", "bv", "srl", "pty", "plc", "kg", "ohg", "se",
        "ug", "spa", "ab", "as", "oy", "oyj", "kft", "doo", "sas", "eurl", "ltda",
        "online", "networks", "network", "telecom", "telecommunications",
        "communications", "comunicaciones", "hosting", "solutions", "services",
        "technologies", "technology", "tech", "group", "holdings", "holding",
        "international", "global", "internet", "systems", "system", "data",
        "datacenter", "cloud", "isp", "of", "and", "parent", "enterprises",
        "enterprise", "backbone",
    ])
}

fn drop_words_vec() -> (r: Vec<&'static str>)
    ensures
        views(r@) == drop_words(),
{
    vec![
        "inc", "llc", "ltd", "limited", "gmbh", "ag", "corp", "corporation",
        "co", "company", "sa", "sl", "bv", "srl", "pty", "plc", "kg", "ohg", "se",
        "ug", "spa", "ab", "as", "oy", "oyj", "kft", "doo", "sas", "eurl", "ltda",
        "online", "networks", "network", "telecom", "telecommunications",
        "communications", "comunicaciones", "hosting", "solutions", "services",
        "technologies", "technology", "tech", "group", "holdings", "holding",
        "international", "global", "internet", "systems", "system", "data",
        "datacenter", "cloud", "isp", "of", "and", "parent", "enterprises",
        "enterprise", "backbone",
    ]
}

/// Words dropped from the start of an organisation name.
pub open spec fn lead_words() -> Seq<Seq<char>> {
    views(seq!["the", "pt", "pp", "ps", "ip", "uab"])
}

fn lead_words_vec() -> (r: Vec<&'static str>)
    ensures
        views(r@) == lead_words(),
{
    vec!["the", "pt", "pp", "ps", "ip", "uab"]
}

/// Registry and country suffixes of RPSL handles (`HETZNER-AS`).
pub open spec fn rir_words() -> Seq<Seq<char>> {
    views(seq!["AS", "AP", "US", "UK", "DE", "FR", "IN", "CN", "JP", "EU", "NET", "COM", "ORG"])
}

fn rir_words_vec() -> (r: Vec<&'static str>)
    ensures
        views(r@) == rir_words(),
{
    vec!["AS", "AP", "US", "UK", "DE", "FR", "IN", "CN", "JP", "EU", "NET", "COM", "ORG"]
}

/// Network-ish tails glued to upper-case handles (`CLOUDFLARENET`).
pub open spec fn net_words() -> Seq<Seq<char>> {
    views(seq!["net", "com", "tel", "web", "line"])
}

fn net_words_vec() -> (r: Vec<&'static str>)
    ensures
        views(r@) == net_words(),
{
    vec!["net", "com", "tel", "web", "line"]
}

/// Web suffixes removed from organisation names (`Amazon.com`).
pub open spec fn url_words() -> Seq<Seq<char>> {
    views(seq![".com", ".net", ".org", ".io"])
}

fn url_words_vec() -> (r: Vec<&'static str>)
    ensures
        views(r@) == url_words(),
{
    vec![".com", ".net", ".org", ".io"]
}

// ---------------------------------------------------------------------------
// Trimming
// ---------------------------------------------------------------------------

/// Punctuation that `in_set` trims from both ends of a word.
pub open spec fn is_punct(c: char) -> bool {
    c == '.' || c == ',' || c == ';' || c == ':' || c == '\'' || c == '"'
}

/// `s` without its leading characters that satisfy `p`.
pub open spec fn drop_front(s: Seq<char>, p: spec_fn(char) -> bool) -> Seq<char>
    decreases s.len(),
{
    if s.len() > 0 && p(s[0]) {
        drop_front(s.drop_first(), p)
    } else {
        s
    }
}

/// `s` without its trailing characters that satisfy `p`.
pub open spec fn drop_back(s: Seq<char>, p: spec_fn(char) -> bool) -> Seq<char>
    decreases s.len(),
{
    if s.len() > 0 && p(s.last()) {
        drop_back(s.drop_last(), p)
    } else {
        s
    }
}

/// `s` without leading and trailing characters that satisfy `p`.
pub open spec fn trim_by(s: Seq<char>, p: spec_fn(char) -> bool) -> Seq<char> {
    drop_back(drop_front(s, p), p)
}

/// Index of the first character of `s` that fails `p`, searching from `i`.
proof fn lemma_drop_front_skip(s: Seq<char>, p: spec_fn(char) -> bool, i: int)
    requires
        0 <= i < s.len(),
        p(s[i]),
    ensures
        drop_front(s.skip(i), p) == drop_front(s.skip(i + 1), p),
{
    assert(s.skip(i).drop_first() =~= s.skip(i + 1));
}

proof fn lemma_drop_back_take(s: Seq<char>, p: spec_fn(char) -> bool, j: int)
    requires
        0 < j <= s.len(),
        p(s[j - 1]),
    ensures
        drop_back(s.take(j), p) == drop_back(s.take(j - 1), p),
{
    assert(s.take(j).drop_last() =~= s.take(j - 1));
}

pub open spec fn ws_pred() -> spec_fn(char) -> bool {
    |c: char| is_ws(c)
}

pub open spec fn punct_pred() -> spec_fn(char) -> bool {
    |c: char| is_punct(c)
}

pub open spec fn dot_pred() -> spec_fn(char) -> bool {
    |c: char| c == '.'
}

/// Which characters a trim removes.
#[derive(Clone, Copy)]
enum Trim {
    Ws,
    Punct,
    Dot,
}

spec fn trim_pred(t: Trim) -> spec_fn(char) -> bool {
    match t {
        Trim::Ws => ws_pred(),
        Trim::Punct => punct_pred(),
        Trim::Dot => dot_pred(),
    }
}

fn trim_test(t: Trim, c: char) -> (r: bool)
    ensures
        r == (trim_pred(t))(c),
{
    match t {
        Trim::Ws => is_whitespace(c),
        Trim::Punct => c == '.' || c == ',' || c == ';' || c == ':' || c == '\'' || c == '"',
        Trim::Dot => c == '.',
    }
}

/// `s` without leading (if `front`) and trailing characters of kind `t`.
fn trim_chars(s: &Vec<char>, t: Trim, front: bool) -> (r: Vec<char>)
    ensures
        r@ == if front {
            trim_by(s@, trim_pred(t))
        } else {
            drop_back(s@, trim_pred(t))
        },
{
    let ghost p = trim_pred(t);
    let n = s.len();
    let mut i: usize = 0;
    proof {
        assert(s@.skip(0) =~= s@);
    }
    if front {
        while i < n && trim_test(t, s[i])
            invariant
                i <= n == s@.len(),
                p == trim_pred(t),
                drop_front(s@, p) == drop_front(s@.skip(i as int), p),
            decreases n - i,
        {
            proof {
                lemma_drop_front_skip(s@, p, i as int);
            }
            i = i + 1;
        }
        proof {
            assert(drop_front(s@.skip(i as int), p) == s@.skip(i as int));
        }
    } else {
        proof {
            assert(s@.skip(0) =~= s@);
        }
    }
    let ghost f = s@.skip(i as int);
    let mut j: usize = n;
    proof {
        assert(f.take(n - i) =~= f);
    }
    while j > i && trim_test(t, s[j - 1])
        invariant
            i <= j <= n == s@.len(),
            p == trim_pred(t),
            f == s@.skip(i as int),
            drop_back(f, p) == drop_back(f.take(j - i), p),
        decreases j,
    {
        proof {
            assert(f[j - 1 - i] == s@[j - 1]);
            lemma_drop_back_take(f, p, j - i);
        }
        j = j - 1;
    }
    proof {
        assert(f.take(j - i) =~= s@.subrange(i as int, j as int));
        assert(f.take(n - i) =~= f);
    }
    let mut out: Vec<char> = Vec::new();
    let mut k: usize = i;
    while k < j
        invariant
            i <= k <= j <= n == s@.len(),
            out@ == s@.subrange(i as int, k as int),
        decreases j - k,
    {
        out.push(s[k]);
        proof {
            assert(s@.subrange(i as int, k + 1) =~= s@.subrange(i as int, k as int).push(
                s@[k as int],
            ));
        }
        k = k + 1;
    }
    out
}

// ---------------------------------------------------------------------------
// Set membership
// ---------------------------------------------------------------------------

/// Whether a word, trimmed of punctuation and in ASCII lower case, is in
/// `set`.
pub open spec fn in_set(set: Seq<Seq<char>>, s: Seq<char>) -> bool {
    set.contains(lower_seq(trim_by(s, punct_pred())))
}

fn in_set_exec(set: &Vec<&'static str>, s: &Vec<char>) -> (r: bool)
    ensures
        r == in_set(views(set@), s@),
{
    let trimmed = trim_chars(s, Trim::Punct, true);
    let low = lower_vec(&trimmed);
    let mut i: usize = 0;
    while i < set.len()
        invariant
            i <= set@.len(),
            low@ == lower_seq(trim_by(s@, punct_pred())),
            forall|j: int| 0 <= j < i ==> views(set@)[j] != low@,
        decreases set@.len() - i,
    {
        let w = to_chars(set[i]);
        if chars_eq(&w, &low) {
            proof {
                assert(views(set@)[i as int] == low@);
            }
            return true;
        }
        i = i + 1;
    }
    false
}

// ---------------------------------------------------------------------------
// Tokens of an organisation name
// ---------------------------------------------------------------------------

/// Characters that separate the tokens of an organisation name.
pub open spec fn is_split_sep(c: char) -> bool {
    is_ws(c) || c == ',' || c == '(' || c == ')'
}

/// Ends a token: its trailing dots go, and an empty token is dropped.
pub open spec fn close_token(toks: Seq<Seq<char>>, cur: Seq<char>) -> Seq<Seq<char>> {
    let t = drop_back(cur, dot_pred());
    if t.len() > 0 {
        toks.push(t)
    } else {
        toks
    }
}

/// The tokens closed so far and the token being read, after reading `s`.
pub open spec fn punct_state(s: Seq<char>) -> (Seq<Seq<char>>, Seq<char>)
    decreases s.len(),
{
    if s.len() == 0 {
        (seq![], seq![])
    } else {
        let st = punct_state(s.drop_last());
        let c = s.last();
        if is_split_sep(c) {
            (close_token(st.0, st.1), seq![])
        } else {
            (st.0, st.1.push(c))
        }
    }
}

/// The tokens of `s`: the runs between white space, commas and
/// parentheses, each without trailing dots, empty ones left out.
pub open spec fn split_punct_spec(s: Seq<char>) -> Seq<Seq<char>> {
    close_token(punct_state(s).0, punct_state(s).1)
}

/// The texts of a vector of tokens.
pub open spec fn toks_view(v: Seq<Vec<char>>) -> Seq<Seq<char>> {
    v.map_values(|x: Vec<char>| x@)
}

fn close_token_exec(toks: &mut Vec<Vec<char>>, cur: &Vec<char>)
    ensures
        toks_view(final(toks)@) == close_token(toks_view(old(toks)@), cur@),
{
    let t = trim_chars(cur, Trim::Dot, false);
    if t.len() > 0 {
        let ghost before = toks_view(toks@);
        toks.push(t);
        proof {
            assert(toks_view(toks@) =~= before.push(t@));
        }
    }
}

fn split_punct(s: &Vec<char>) -> (r: Vec<Vec<char>>)
    ensures
        toks_view(r@) == split_punct_spec(s@),
{
    let mut tokens: Vec<Vec<char>> = Vec::new();
    let mut current: Vec<char> = Vec::new();
    let mut i: usize = 0;
    proof {
        assert(s@.take(0) =~= Seq::<char>::empty());
        assert(toks_view(tokens@) =~= Seq::<Seq<char>>::empty());
    }
    while i < s.len()
        invariant
            i <= s@.len(),
            toks_view(tokens@) == punct_state(s@.take(i as int)).0,
            current@ == punct_state(s@.take(i as int)).1,
        decreases s@.len() - i,
    {
        let c = s[i];
        proof {
            assert(s@.take(i + 1).drop_last() =~= s@.take(i as int));
        }
        if is_whitespace(c) || c == ',' || c == '(' || c == ')' {
            close_token_exec(&mut tokens, &current);
            current = Vec::new();
        } else {
            current.push(c);
        }
        i = i + 1;
    }
    proof {
        assert(s@.take(s@.len() as int) =~= s@);
    }
    close_token_exec(&mut tokens, &current);
    tokens
}

// ---------------------------------------------------------------------------
// Smart case
// ---------------------------------------------------------------------------

/// Every character is an ASCII capital letter.
pub open spec fn all_upper(t: Seq<char>) -> bool {
    forall|i: int| 0 <= i < t.len() ==> is_upper(t[i])
}

/// First character kept, the rest in lower case.
pub open spec fn title_spec(t: Seq<char>) -> Seq<char> {
    if t.len() == 0 {
        t
    } else {
        seq![t[0]] + lower_seq(t.drop_first())
    }
}

/// A shouted word of five letters or more (`CLOUDFLARE`) in title case;
/// anything else unchanged.
pub open spec fn smart_tok_spec(t: Seq<char>) -> Seq<char> {
    if t.len() >= 5 && all_upper(t) {
        title_spec(t)
    } else {
        t
    }
}

/// Text done and the word being read, after reading `s`.
pub open spec fn case_state(s: Seq<char>) -> (Seq<char>, Seq<char>)
    decreases s.len(),
{
    if s.len() == 0 {
        (seq![], seq![])
    } else {
        let st = case_state(s.drop_last());
        if s.last() == ' ' {
            (st.0 + smart_tok_spec(st.1) + seq![' '], seq![])
        } else {
            (st.0, st.1.push(s.last()))
        }
    }
}

/// Each space-separated word of `s` through `smart_tok_spec`.
pub open spec fn smart_case_spec(s: Seq<char>) -> Seq<char> {
    case_state(s).0 + smart_tok_spec(case_state(s).1)
}

/// Title case of a word of ASCII capitals.
fn title(s: &Vec<char>) -> (r: Vec<char>)
    requires
        all_upper(s@),
    ensures
        r@ == title_spec(s@),
{
    let mut out: Vec<char> = Vec::new();
    let mut i: usize = 0;
    while i < s.len()
        invariant
            i <= s@.len(),
            all_upper(s@),
            i == 0 ==> out@.len() == 0,
            i > 0 ==> out@ == seq![s@[0]] + lower_seq(s@.subrange(1, i as int)),
        decreases s@.len() - i,
    {
        if i == 0 {
            out.push(s[0]);
            proof {
                assert(s@.subrange(1, 1) =~= Seq::<char>::empty());
                assert(out@ =~= seq![s@[0]] + lower_seq(s@.subrange(1, 1)));
            }
        } else {
            out.push(to_lower(s[i]));
            proof {
                assert(lower_seq(s@.subrange(1, i + 1)) =~= lower_seq(s@.subrange(1, i as int)).push(
                    lower(s@[i as int]),
                ));
            }
        }
        i = i + 1;
    }
    proof {
        if s@.len() > 0 {
            assert(s@.subrange(1, s@.len() as int) =~= s@.drop_first());
        }
    }
    out
}

fn smart_tok(t: &Vec<char>) -> (r: Vec<char>)
    ensures
        r@ == smart_tok_spec(t@),
{
    let mut upper = t.len() > 0;
    let mut i: usize = 0;
    while i < t.len()
        invariant
            i <= t@.len(),
            upper == (t@.len() > 0 && forall|j: int| 0 <= j < i ==> is_upper(t@[j])),
        decreases t@.len() - i,
    {
        if !('A' <= t[i] && t[i] <= 'Z') {
            upper = false;
        }
        i = i + 1;
    }
    if upper && t.len() >= 5 {
        title(t)
    } else {
        t.clone()
    }
}

fn append_chars(out: &mut Vec<char>, t: &Vec<char>)
    ensures
        final(out)@ == old(out)@ + t@,
{
    let mut i: usize = 0;
    let ghost start = out@;
    while i < t.len()
        invariant
            i <= t@.len(),
            out@ == start + t@.take(i as int),
        decreases t@.len() - i,
    {
        out.push(t[i]);
        proof {
            assert(t@.take(i + 1) =~= t@.take(i as int).push(t@[i as int]));
        }
        i = i + 1;
    }
    proof {
        assert(t@.take(t@.len() as int) =~= t@);
    }
}

fn smart_case(s: &Vec<char>) -> (r: Vec<char>)
    ensures
        r@ == smart_case_spec(s@),
{
    let mut done: Vec<char> = Vec::new();
    let mut cur: Vec<char> = Vec::new();
    let mut i: usize = 0;
    proof {
        assert(s@.take(0) =~= Seq::<char>::empty());
    }
    while i < s.len()
        invariant
            i <= s@.len(),
            done@ == case_state(s@.take(i as int)).0,
            cur@ == case_state(s@.take(i as int)).1,
        decreases s@.len() - i,
    {
        let c = s[i];
        proof {
            assert(s@.take(i + 1).drop_last() =~= s@.take(i as int));
        }
        if c == ' ' {
            let t = smart_tok(&cur);
            append_chars(&mut done, &t);
            done.push(' ');
            cur = Vec::new();
        } else {
            cur.push(c);
        }
        i = i + 1;
    }
    proof {
        assert(s@.take(s@.len() as int) =~= s@);
    }
    let t = smart_tok(&cur);
    append_chars(&mut done, &t);
    done
}

// ---------------------------------------------------------------------------
// From the organisation name
// ---------------------------------------------------------------------------

/// Trailing tokens that are legal-form or filler words removed.
pub open spec fn pop_dropped(t: Seq<Seq<char>>) -> Seq<Seq<char>>
    decreases t.len(),
{
    if t.len() > 0 && in_set(drop_words(), t.last()) {
        pop_dropped(t.drop_last())
    } else {
        t
    }
}

/// Leading tokens such as `the` removed.
pub open spec fn shift_lead(t: Seq<Seq<char>>) -> Seq<Seq<char>>
    decreases t.len(),
{
    if t.len() > 0 && in_set(lead_words(), t[0]) {
        shift_lead(t.drop_first())
    } else {
        t
    }
}

/// The tokens joined by single spaces.
pub open spec fn join_space(t: Seq<Seq<char>>) -> Seq<char>
    decreases t.len(),
{
    if t.len() == 0 {
        seq![]
    } else if t.len() == 1 {
        t[0]
    } else {
        join_space(t.drop_last()) + seq![' '] + t.last()
    }
}

/// Whether `s` ends with `w`.
pub open spec fn ends_with(s: Seq<char>, w: Seq<char>) -> bool {
    s.len() >= w.len() && s.subrange(s.len() - w.len(), s.len() as int) == w
}

/// The web suffixes from `i` on removed in turn, each where the text ends
/// with it in any ASCII case.
pub open spec fn strip_url(out: Seq<char>, i: int) -> Seq<char>
    decreases url_words().len() - i,
{
    if i < 0 || i >= url_words().len() {
        out
    } else {
        let w = url_words()[i];
        let next = if ends_with(lower_seq(out), w) {
            out.take(out.len() - w.len())
        } else {
            out
        };
        strip_url(next, i + 1)
    }
}

/// The brand that an organisation name gives.
pub open spec fn from_company_spec(c: Seq<char>) -> Seq<char> {
    smart_case_spec(strip_url(join_space(shift_lead(pop_dropped(split_punct_spec(c)))), 0))
}

fn ends_with_exec(s: &Vec<char>, w: &Vec<char>) -> (r: bool)
    ensures
        r == ends_with(s@, w@),
{
    if s.len() < w.len() {
        return false;
    }
    let off = s.len() - w.len();
    let mut i: usize = 0;
    while i < w.len()
        invariant
            i <= w@.len(),
            off + w@.len() == s.len(),
            forall|j: int| 0 <= j < i ==> s@[off + j] == w@[j],
        decreases w@.len() - i,
    {
        if s[off + i] != w[i] {
            proof {
                assert(s@.subrange(off as int, s@.len() as int)[i as int] != w@[i as int]);
            }
            return false;
        }
        i = i + 1;
    }
    proof {
        assert(s@.subrange(off as int, s@.len() as int) =~= w@);
    }
    true
}

fn take_chars(s: &Vec<char>, n: usize) -> (r: Vec<char>)
    requires
        n <= s@.len(),
    ensures
        r@ == s@.take(n as int),
{
    let mut out: Vec<char> = Vec::new();
    let mut i: usize = 0;
    while i < n
        invariant
            i <= n <= s@.len(),
            out@ == s@.take(i as int),
        decreases n - i,
    {
        out.push(s[i]);
        proof {
            assert(s@.take(i + 1) =~= s@.take(i as int).push(s@[i as int]));
        }
        i = i + 1;
    }
    out
}

proof fn lemma_join_space_push(t: Seq<Seq<char>>, x: Seq<char>)
    ensures
        join_space(t.push(x)) == if t.len() == 0 {
            x
        } else {
            join_space(t) + seq![' '] + x
        },
{
    assert(t.push(x).drop_last() =~= t);
}

/// The brand that an organisation name gives.
fn from_company(company: &Vec<char>) -> (r: Vec<char>)
    ensures
        r@ == from_company_spec(company@),
{
    let mut tokens = split_punct(company);
    let drop = drop_words_vec();
    let lead = lead_words_vec();
    let ghost all = toks_view(tokens@);
    while tokens.len() > 0 && in_set_exec(&drop, &tokens[tokens.len() - 1])
        invariant
            views(drop@) == drop_words(),
            pop_dropped(all) == pop_dropped(toks_view(tokens@)),
        decreases tokens@.len(),
    {
        let ghost before = toks_view(tokens@);
        tokens.pop();
        proof {
            assert(toks_view(tokens@) =~= before.drop_last());
        }
    }
    let ghost popped = toks_view(tokens@);
    proof {
        assert(pop_dropped(popped) == popped);
        assert(popped.skip(0) =~= popped);
    }
    let mut k: usize = 0;
    while k < tokens.len() && in_set_exec(&lead, &tokens[k])
        invariant
            k <= tokens@.len(),
            popped == toks_view(tokens@),
            views(lead@) == lead_words(),
            shift_lead(popped) == shift_lead(popped.skip(k as int)),
        decreases tokens@.len() - k,
    {
        proof {
            assert(popped.skip(k as int).drop_first() =~= popped.skip(k + 1));
            assert(popped.skip(k as int)[0] == tokens@[k as int]@);
        }
        k = k + 1;
    }
    let ghost kept = popped.skip(k as int);
    proof {
        assert(shift_lead(kept) == kept);
    }
    let mut out: Vec<char> = Vec::new();
    let mut i: usize = k;
    proof {
        assert(kept.take(0) =~= Seq::<Seq<char>>::empty());
    }
    while i < tokens.len()
        invariant
            k <= i <= tokens@.len(),
            popped == toks_view(tokens@),
            kept == popped.skip(k as int),
            out@ == join_space(kept.take(i - k)),
        decreases tokens@.len() - i,
    {
        proof {
            assert(kept.take(i - k + 1) =~= kept.take(i - k).push(tokens@[i as int]@));
            lemma_join_space_push(kept.take(i - k), tokens@[i as int]@);
        }
        if i > k {
            out.push(' ');
        }
        append_chars(&mut out, &tokens[i]);
        i = i + 1;
    }
    proof {
        assert(kept.take(i - k) =~= kept);
    }
    let urls = url_words_vec();
    let mut u: usize = 0;
    while u < urls.len()
        invariant
            u <= urls@.len(),
            views(urls@) == url_words(),
            strip_url(join_space(kept), 0) == strip_url(out@, u as int),
        decreases urls@.len() - u,
    {
        let w = to_chars(urls[u]);
        let low = lower_vec(&out);
        proof {
            assert(w@ == url_words()[u as int]);
        }
        if ends_with_exec(&low, &w) {
            out = take_chars(&out, out.len() - w.len());
        }
        u = u + 1;
    }
    smart_case(&out)
}

// ---------------------------------------------------------------------------
// From the RPSL handle
// ---------------------------------------------------------------------------

/// Whether ` - ` starts at position `k` of `s`.
pub open spec fn dash_at(s: Seq<char>, k: int) -> bool {
    0 <= k && k + 3 <= s.len() && s[k] == ' ' && s[k + 1] == '-' && s[k + 2] == ' '
}

/// The first position at or after `k` where ` - ` starts.
pub open spec fn dash_from(s: Seq<char>, k: int) -> Option<int>
    decreases s.len() - k,
{
    if k < 0 || k + 3 > s.len() {
        None
    } else if dash_at(s, k) {
        Some(k)
    } else {
        dash_from(s, k + 1)
    }
}

/// The leading run of `s` that holds no white space.
pub open spec fn leading_word(s: Seq<char>) -> Seq<char>
    decreases s.len(),
{
    if s.len() == 0 || is_ws(s[0]) {
        seq![]
    } else {
        seq![s[0]] + leading_word(s.drop_first())
    }
}

/// What precedes the first ` - `, or else the first white-space-separated
/// word (empty if there is none).
pub open spec fn first_token_spec(s: Seq<char>) -> Seq<char> {
    match dash_from(s, 0) {
        Some(k) => s.take(k),
        None => leading_word(drop_front(s, ws_pred())),
    }
}

/// The part of a name before ` - `, or its first word.
pub fn split_first_token(name: &str) -> (r: String)
    ensures
        r@ == first_token_spec(name@),
{
    let v = to_chars(name);
    let t = split_first_token_chars(&v);
    string_from_chars(&t)
}

fn split_first_token_chars(s: &Vec<char>) -> (r: Vec<char>)
    ensures
        r@ == first_token_spec(s@),
{
    let n = s.len();
    let mut k: usize = 0;
    while k < n && n - k >= 3
        invariant
            n == s@.len(),
            dash_from(s@, 0) == dash_from(s@, k as int),
        decreases n - k,
    {
        if s[k] == ' ' && s[k + 1] == '-' && s[k + 2] == ' ' {
            return take_chars(s, k);
        }
        k = k + 1;
    }
    let rest = trim_chars_front_ws(s);
    let mut out: Vec<char> = Vec::new();
    let mut i: usize = 0;
    proof {
        lemma_skip_zero(rest@);
        assert(out@ + leading_word(rest@) =~= leading_word(rest@));
    }
    while i < rest.len() && !is_whitespace(rest[i])
        invariant
            i <= rest@.len(),
            leading_word(rest@) == out@ + leading_word(rest@.skip(i as int)),
        decreases rest@.len() - i,
    {
        proof {
            assert(rest@.skip(i as int).drop_first() =~= rest@.skip(i + 1));
        }
        out.push(rest[i]);
        i = i + 1;
    }
    proof {
        if i < rest@.len() {
            assert(is_ws(rest@.skip(i as int)[0]));
        }
        assert(out@ + Seq::<char>::empty() =~= out@);
    }
    out
}

proof fn lemma_skip_zero(s: Seq<char>)
    ensures
        s.skip(0) == s,
{
    assert(s.skip(0) =~= s);
}

/// `s` without leading white space.
fn trim_chars_front_ws(s: &Vec<char>) -> (r: Vec<char>)
    ensures
        r@ == drop_front(s@, ws_pred()),
{
    let n = s.len();
    let mut i: usize = 0;
    proof {
        lemma_skip_zero(s@);
    }
    while i < n && is_whitespace(s[i])
        invariant
            i <= n == s@.len(),
            drop_front(s@, ws_pred()) == drop_front(s@.skip(i as int), ws_pred()),
        decreases n - i,
    {
        proof {
            lemma_drop_front_skip(s@, ws_pred(), i as int);
        }
        i = i + 1;
    }
    let mut out: Vec<char> = Vec::new();
    let mut k: usize = i;
    while k < n
        invariant
            i <= k <= n == s@.len(),
            out@ == s@.subrange(i as int, k as int),
        decreases n - k,
    {
        out.push(s[k]);
        proof {
            assert(s@.subrange(i as int, k + 1) =~= s@.subrange(i as int, k as int).push(
                s@[k as int],
            ));
        }
        k = k + 1;
    }
    proof {
        assert(s@.subrange(i as int, n as int) =~= s@.skip(i as int));
    }
    out
}

/// Whether `h` ends in `-` and then `w`, in any ASCII case, with more
/// before.
pub open spec fn rir_match(h: Seq<char>, w: Seq<char>) -> bool {
    &&& h.len() > w.len() + 1
    &&& h[h.len() - w.len() - 1] == '-'
    &&& lower_seq(h.subrange(h.len() - w.len(), h.len() as int)) == lower_seq(w)
}

/// The first registry suffix from `i` on that `h` ends with, removed with
/// its dash.
pub open spec fn rir_strip_from(h: Seq<char>, i: int) -> Seq<char>
    decreases rir_words().len() - i,
{
    if i < 0 || i >= rir_words().len() {
        h
    } else if rir_match(h, rir_words()[i]) {
        h.take(h.len() - rir_words()[i].len() - 1)
    } else {
        rir_strip_from(h, i + 1)
    }
}

/// Whether the last `w.len()` characters of `h` equal `w` in any ASCII case.
fn tail_eq_ci(h: &Vec<char>, w: &Vec<char>) -> (r: bool)
    requires
        w@.len() <= h@.len(),
    ensures
        r == (lower_seq(h@.subrange(h@.len() - w@.len(), h@.len() as int)) == lower_seq(w@)),
{
    let lh = lower_vec(h);
    let lw = lower_vec(w);
    let r = ends_with_exec(&lh, &lw);
    proof {
        assert(lower_seq(h@.subrange(h@.len() - w@.len(), h@.len() as int)) =~= lh@.subrange(
            h@.len() - w@.len(),
            h@.len() as int,
        ));
    }
    r
}

fn strip_rir_suffix(h: &Vec<char>) -> (r: Vec<char>)
    ensures
        r@ == rir_strip_from(h@, 0),
{
    let list = rir_words_vec();
    let mut i: usize = 0;
    while i < list.len()
        invariant
            i <= list@.len(),
            views(list@) == rir_words(),
            rir_strip_from(h@, 0) == rir_strip_from(h@, i as int),
        decreases list@.len() - i,
    {
        let w = to_chars(list[i]);
        proof {
            assert(w@ == rir_words()[i as int]);
        }
        let n = h.len();
        if n > 0 && n - 1 > w.len() && h[n - w.len() - 1] == '-' && tail_eq_ci(h, &w) {
            return take_chars(h, n - w.len() - 1);
        }
        i = i + 1;
    }
    h.clone()
}

/// UTF-8 width of one character.
pub open spec fn utf8_width(c: char) -> nat {
    let u = c as u32;
    if u < 0x80 {
        1
    } else if u < 0x800 {
        2
    } else if u < 0x10000 {
        3
    } else {
        4
    }
}

/// UTF-8 length of a text in bytes.
pub open spec fn utf8_len(s: Seq<char>) -> nat
    decreases s.len(),
{
    if s.len() == 0 {
        0
    } else {
        utf8_len(s.drop_last()) + utf8_width(s.last())
    }
}

/// Whether `k` bytes before the end of the UTF-8 form of `s` fall between
/// two characters.
pub open spec fn tail_boundary(s: Seq<char>, k: int) -> bool
    decreases s.len(),
{
    if k == 0 {
        true
    } else if s.len() == 0 || k < 0 {
        false
    } else {
        utf8_width(s.last()) <= k && tail_boundary(s.drop_last(), k - utf8_width(s.last()))
    }
}

/// No ASCII lower-case letter.
pub open spec fn no_lower(s: Seq<char>) -> bool {
    forall|i: int| 0 <= i < s.len() ==> !is_lower(s[i])
}

/// Whether `h` ends with `w` in any ASCII case, with more before.
pub open spec fn net_match(h: Seq<char>, w: Seq<char>) -> bool {
    &&& h.len() > w.len()
    &&& lower_seq(h.subrange(h.len() - w.len(), h.len() as int)) == lower_seq(w)
}

pub open spec fn net_strip_from(h: Seq<char>, i: int) -> Seq<char>
    decreases net_words().len() - i,
{
    if i < 0 || i >= net_words().len() {
        h
    } else if net_match(h, net_words()[i]) {
        h.take(h.len() - net_words()[i].len())
    } else {
        net_strip_from(h, i + 1)
    }
}

/// A network tail glued to an upper-case handle of more than four bytes
/// removed (`CLOUDFLARENET` → `CLOUDFLARE`).
pub open spec fn net_strip(h: Seq<char>) -> Seq<char> {
    if utf8_len(h) <= 4 || !no_lower(h) {
        h
    } else {
        net_strip_from(h, 0)
    }
}

/// Every tail compared, up to the first that matches, starts between two
/// characters of the UTF-8 form: the handles on which the byte-offset
/// cut of the tail is defined.
pub open spec fn net_safe_from(h: Seq<char>, i: int) -> bool
    decreases net_words().len() - i,
{
    if i < 0 || i >= net_words().len() {
        true
    } else {
        let w = net_words()[i];
        &&& (utf8_len(h) > w.len() ==> tail_boundary(h, w.len() as int))
        &&& (net_match(h, w) || net_safe_from(h, i + 1))
    }
}

pub open spec fn net_safe(h: Seq<char>) -> bool {
    utf8_len(h) <= 4 || !no_lower(h) || net_safe_from(h, 0)
}

fn utf8_width_exec(c: char) -> (r: usize)
    ensures
        r == utf8_width(c),
{
    let u = c as u32;
    if u < 0x80 {
        1
    } else if u < 0x800 {
        2
    } else if u < 0x10000 {
        3
    } else {
        4
    }
}

/// UTF-8 length in bytes.
fn utf8_len_exec(s: &Vec<char>) -> (r: u128)
    ensures
        r == utf8_len(s@),
{
    let mut total: u128 = 0;
    let mut i: usize = 0;
    proof {
        assert(s@.take(0) =~= Seq::<char>::empty());
    }
    while i < s.len()
        invariant
            i <= s@.len(),
            total == utf8_len(s@.take(i as int)),
            total <= 4 * i,
        decreases s@.len() - i,
    {
        proof {
            assert(s@.take(i + 1).drop_last() =~= s@.take(i as int));
        }
        let w = utf8_width_exec(s[i]);
        total = total + w as u128;
        i = i + 1;
    }
    proof {
        assert(s@.take(s@.len() as int) =~= s@);
    }
    total
}

/// Whether `k` bytes before the end fall between two characters.
fn tail_boundary_exec(s: &Vec<char>, k: usize) -> (r: bool)
    ensures
        r == tail_boundary(s@, k as int),
{
    let mut j: usize = s.len();
    let mut rem: usize = k;
    proof {
        assert(s@.take(j as int) =~= s@);
    }
    while rem > 0 && j > 0 && utf8_width_exec(s[j - 1]) <= rem
        invariant
            j <= s@.len(),
            tail_boundary(s@, k as int) == tail_boundary(s@.take(j as int), rem as int),
        decreases j,
    {
        proof {
            assert(s@.take(j as int).drop_last() =~= s@.take(j - 1));
        }
        rem = rem - utf8_width_exec(s[j - 1]);
        j = j - 1;
    }
    rem == 0
}

fn strip_net_tail(h: &Vec<char>) -> (r: Vec<char>)
    ensures
        r@ == net_strip(h@),
{
    let blen = utf8_len_exec(h);
    let mut upper = true;
    let mut i: usize = 0;
    while i < h.len()
        invariant
            i <= h@.len(),
            upper == forall|j: int| 0 <= j < i ==> !is_lower(h@[j]),
        decreases h@.len() - i,
    {
        if 'a' <= h[i] && h[i] <= 'z' {
            upper = false;
        }
        i = i + 1;
    }
    if blen <= 4 || !upper {
        return h.clone();
    }
    proof {
        assert(no_lower(h@));
        assert(net_strip(h@) == net_strip_from(h@, 0));
    }
    let list = net_words_vec();
    let mut i: usize = 0;
    while i < list.len()
        invariant
            i <= list@.len(),
            views(list@) == net_words(),
            net_strip(h@) == net_strip_from(h@, 0),
            net_strip_from(h@, 0) == net_strip_from(h@, i as int),
        decreases list@.len() - i,
    {
        let w = to_chars(list[i]);
        proof {
            assert(w@ == net_words()[i as int]);
        }
        if h.len() > w.len() && tail_eq_ci(h, &w) {
            return take_chars(h, h.len() - w.len());
        }
        i = i + 1;
    }
    h.clone()
}

/// Whether `net_safe` holds of `h`.
fn net_safe_exec(h: &Vec<char>) -> (r: bool)
    ensures
        r == net_safe(h@),
{
    let blen = utf8_len_exec(h);
    let mut upper = true;
    let mut i: usize = 0;
    while i < h.len()
        invariant
            i <= h@.len(),
            upper == forall|j: int| 0 <= j < i ==> !is_lower(h@[j]),
        decreases h@.len() - i,
    {
        if 'a' <= h[i] && h[i] <= 'z' {
            upper = false;
        }
        i = i + 1;
    }
    if blen <= 4 || !upper {
        return true;
    }
    proof {
        assert(no_lower(h@));
        assert(net_safe(h@) == net_safe_from(h@, 0));
    }
    let list = net_words_vec();
    let mut i: usize = 0;
    while i < list.len()
        invariant
            i <= list@.len(),
            views(list@) == net_words(),
            utf8_len(h@) > 4,
            net_safe(h@) == net_safe_from(h@, 0),
            blen == utf8_len(h@),
            net_safe_from(h@, 0) == net_safe_from(h@, i as int),
        decreases list@.len() - i,
    {
        let w = to_chars(list[i]);
        proof {
            assert(w@ == net_words()[i as int]);
        }
        let k = w.len();
        let tb = tail_boundary_exec(h, k);
        if blen > k as u128 && !tb {
            return false;
        }
        let m = h.len() > k && tail_eq_ci(h, &w);
        proof {
            assert(net_match(h@, w@) == m);
            
        }
        if m {
            return true;
        }
        i = i + 1;
    }
    true
}

/// The brand that an RPSL handle gives.
pub open spec fn from_name_spec(name: Seq<char>) -> Seq<char> {
    smart_case_spec(net_strip(rir_strip_from(first_token_spec(trim_by(name, ws_pred())), 0)))
}

/// The names on which `from_name_spec` is defined.
pub open spec fn from_name_defined(name: Seq<char>) -> bool {
    net_safe(rir_strip_from(first_token_spec(trim_by(name, ws_pred())), 0))
}

fn from_name(name: &Vec<char>) -> (r: Vec<char>)
    requires
        from_name_defined(name@),
    ensures
        r@ == from_name_spec(name@),
{
    let t = trim_chars(name, Trim::Ws, true);
    let h = split_first_token_chars(&t);
    let h = strip_rir_suffix(&h);
    let h = strip_net_tail(&h);
    smart_case(&h)
}

// ---------------------------------------------------------------------------
// Provider
// ---------------------------------------------------------------------------

/// Whether `s` starts with `p`.
pub open spec fn starts_with(s: Seq<char>, p: Seq<char>) -> bool {
    s.len() >= p.len() && s.take(p.len() as int) == p
}

/// The brand of an AS from its RPSL name and its organisation: the two
/// cleaned forms, preferring the handle where the organisation's brand
/// extends it word-wise (or equals it), else the organisation's brand
/// whenever there is one.
pub open spec fn provider_spec(name: Seq<char>, company: Seq<char>) -> Seq<char> {
    let cc = if company.len() == 0 {
        seq![]
    } else {
        from_company_spec(company)
    };
    let h = if name.len() == 0 {
        seq![]
    } else {
        from_name_spec(name)
    };
    if cc.len() > 0 && h.len() > 0 && (lower_seq(cc) == lower_seq(h) || starts_with(
        lower_seq(cc),
        lower_seq(h) + seq![' '],
    )) {
        h
    } else if cc.len() > 0 {
        cc
    } else {
        h
    }
}

/// The inputs on which `provider` is defined.
pub open spec fn provider_defined(name: Seq<char>) -> bool {
    name.len() == 0 || from_name_defined(name)
}

fn starts_with_exec(s: &Vec<char>, p: &Vec<char>) -> (r: bool)
    ensures
        r == starts_with(s@, p@),
{
    if s.len() < p.len() {
        return false;
    }
    let mut i: usize = 0;
    while i < p.len()
        invariant
            i <= p@.len() <= s@.len(),
            forall|j: int| 0 <= j < i ==> s@[j] == p@[j],
        decreases p@.len() - i,
    {
        if s[i] != p[i] {
            proof {
                assert(s@.take(p@.len() as int)[i as int] != p@[i as int]);
            }
            return false;
        }
        i = i + 1;
    }
    proof {
        assert(s@.take(p@.len() as int) =~= p@);
    }
    true
}

/// Whether `provider` is defined on `name`: cutting a network tail off the
/// handle never falls inside a multi-byte character.
pub fn provider_is_defined(name: &str) -> (r: bool)
    ensures
        r == provider_defined(name@),
{
    let v = to_chars(name);
    if v.len() == 0 {
        return true;
    }
    let t = trim_chars(&v, Trim::Ws, true);
    let h = split_first_token_chars(&t);
    let h = strip_rir_suffix(&h);
    net_safe_exec(&h)
}

/// The cleaned brand of an AS from its RPSL name and organisation name.
pub fn provider(name: &str, company: &str) -> (r: String)
    requires
        provider_defined(name@),
    ensures
        r@ == provider_spec(name@, company@),
{
    let name_v = to_chars(name);
    let company_v = to_chars(company);
    let cc = if company_v.len() == 0 {
        Vec::new()
    } else {
        from_company(&company_v)
    };
    let h = if name_v.len() == 0 {
        Vec::new()
    } else {
        from_name(&name_v)
    };
    if cc.len() > 0 && h.len() > 0 {
        let cl = lower_vec(&cc);
        let hl = lower_vec(&h);
        let mut hl_sp = hl.clone();
        hl_sp.push(' ');
        proof {
            assert(hl_sp@ =~= lower_seq(h@) + seq![' ']);
        }
        if chars_eq(&cl, &hl) || starts_with_exec(&cl, &hl_sp) {
            return string_from_chars(&h);
        }
    }
    if cc.len() > 0 {
        string_from_chars(&cc)
    } else {
        string_from_chars(&h)
    }
}

} // verus!
