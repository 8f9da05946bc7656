use vstd::prelude::*;

use crate::pair_views;

verus! {

/// Why a line could not be parsed.
#[derive(Clone, Copy, Debug, PartialEq, Eq, Structural)]
pub enum ParseErrorKind {
    InvalidKey,
    MissingEquals,
    UnterminatedQuote,
    TrailingCharacters,
    InvalidEscape,
}

pub open spec fn is_ws(c: char) -> bool {
    c == ' ' || c == '\t' || c == '\r' || c == '\n' || c == '\u{b}' || c == '\u{c}'
}

pub open spec fn is_key_char(c: char) -> bool {
    ('a' <= c && c <= 'z') || ('A' <= c && c <= 'Z') || ('0' <= c && c <= '9') || c == '_'
}

pub open spec fn is_digit(c: char) -> bool {
    '0' <= c && c <= '9'
}

/// First index at or after `i` that is not whitespace.
pub open spec fn skip_ws(s: Seq<char>, i: int) -> int
    decreases s.len() - i,
{
    if 0 <= i < s.len() && is_ws(s[i]) { skip_ws(s, i + 1) } else { i }
}

/// First index at or after `i` that holds `c`, or the length.
pub open spec fn find(s: Seq<char>, i: int, c: char) -> int
    decreases s.len() - i,
{
    if 0 <= i < s.len() && s[i] != c { find(s, i + 1, c) } else { i }
}

/// End of the run of key characters that starts at `i`.
pub open spec fn key_run(s: Seq<char>, i: int) -> int
    decreases s.len() - i,
{
    if 0 <= i < s.len() && is_key_char(s[i]) { key_run(s, i + 1) } else { i }
}

/// `j` moved back over whitespace, not below `lo`.
pub open spec fn trim_back(s: Seq<char>, lo: int, j: int) -> int
    decreases j - lo,
{
    if lo < j && j <= s.len() && is_ws(s[j - 1]) { trim_back(s, lo, j - 1) } else { j }
}

/// What may follow a closing quote: whitespace, then nothing or a comment.
pub open spec fn tail_ok(t: Seq<char>, i: int) -> bool {
    skip_ws(t, i) >= t.len() || t[skip_ws(t, i)] == '#'
}

/// What the escape `\c` stands for in double quotes.
pub open spec fn unescape(c: char) -> Option<char> {
    if c == 'n' {
        Some('\n')
    } else if c == 't' {
        Some('\t')
    } else if c == '"' {
        Some('"')
    } else if c == '\\' {
        Some('\\')
    } else {
        None
    }
}

/// A double-quoted value from index `i` on, unescaped and appended to `out`,
/// with the index of its closing quote.
pub open spec fn dq_scan(t: Seq<char>, i: int, out: Seq<char>) -> Result<(Seq<char>, int), ParseErrorKind>
    decreases t.len() - i,
{
    if i < 0 || i >= t.len() {
        Err(ParseErrorKind::UnterminatedQuote)
    } else if t[i] == '"' {
        Ok((out, i))
    } else if t[i] == '\\' {
        if i + 1 >= t.len() {
            Err(ParseErrorKind::UnterminatedQuote)
        } else {
            match unescape(t[i + 1]) {
                Some(c) => dq_scan(t, i + 2, out.push(c)),
                None => Err(ParseErrorKind::InvalidEscape),
            }
        }
    } else {
        dq_scan(t, i + 1, out.push(t[i]))
    }
}

/// The line starts with the word `export` and whitespace.
pub open spec fn has_export(t: Seq<char>) -> bool {
    t.len() > 6 && t[0] == 'e' && t[1] == 'x' && t[2] == 'p' && t[3] == 'o' && t[4] == 'r' && t[5] == 't'
        && is_ws(t[6])
}

/// The trimmed line without a leading `export`.
pub open spec fn body(t: Seq<char>) -> Seq<char> {
    if has_export(t) { t.subrange(skip_ws(t, 6), t.len() as int) } else { t }
}

/// The value that starts at `v0` of the trimmed line `t`.
pub open spec fn value_of(t: Seq<char>, v0: int) -> Result<Seq<char>, ParseErrorKind> {
    if v0 >= t.len() {
        Ok(Seq::empty())
    } else if t[v0] == '"' {
        match dq_scan(t, v0 + 1, Seq::empty()) {
            Err(e) => Err(e),
            Ok((v, q)) => if tail_ok(t, q + 1) { Ok(v) } else { Err(ParseErrorKind::TrailingCharacters) },
        }
    } else if t[v0] == '\'' {
        let q = find(t, v0 + 1, t[v0]);
        if q >= t.len() {
            Err(ParseErrorKind::UnterminatedQuote)
        } else if !tail_ok(t, q + 1) {
            Err(ParseErrorKind::TrailingCharacters)
        } else {
            Ok(t.subrange(v0 + 1, q))
        }
    } else {
        let h = find(t, v0, '#');
        Ok(t.subrange(v0, trim_back(t, v0, h)))
    }
}

/// A line, trimmed: nothing for a blank or comment line, else `KEY=VALUE`.
pub open spec fn parse_spec(s: Seq<char>) -> Result<Option<(Seq<char>, Seq<char>)>, ParseErrorKind> {
    let a = skip_ws(s, 0);
    if a >= s.len() || s[a] == '#' {
        Ok(None)
    } else {
        let t = body(s.subrange(a, trim_back(s, a, s.len() as int)));
        let ke = key_run(t, 0);
        if ke == 0 || is_digit(t[0]) {
            Err(ParseErrorKind::InvalidKey)
        } else {
            let e = skip_ws(t, ke);
            if e >= t.len() || t[e] != '=' {
                Err(ParseErrorKind::MissingEquals)
            } else {
                match value_of(t, skip_ws(t, e + 1)) {
                    Ok(v) => Ok(Some((t.subrange(0, ke), v))),
                    Err(k) => Err(k),
                }
            }
        }
    }
}

proof fn lemma_skip_ws_to(s: Seq<char>, i: int, a: int)
    requires
        0 <= i <= a <= s.len(),
        forall|j: int| i <= j < a ==> is_ws(#[trigger] s[j]),
        a == s.len() || !is_ws(s[a]),
    ensures
        skip_ws(s, i) == a,
    decreases a - i,
{
    if i < a {
        lemma_skip_ws_to(s, i + 1, a);
    }
}

proof fn lemma_find_to(s: Seq<char>, i: int, a: int, c: char)
    requires
        0 <= i <= a <= s.len(),
        forall|j: int| i <= j < a ==> #[trigger] s[j] != c,
        a == s.len() || s[a] == c,
    ensures
        find(s, i, c) == a,
    decreases a - i,
{
    if i < a {
        lemma_find_to(s, i + 1, a, c);
    }
}

proof fn lemma_key_run_to(s: Seq<char>, i: int, a: int)
    requires
        0 <= i <= a <= s.len(),
        forall|j: int| i <= j < a ==> is_key_char(#[trigger] s[j]),
        a == s.len() || !is_key_char(s[a]),
    ensures
        key_run(s, i) == a,
    decreases a - i,
{
    if i < a {
        lemma_key_run_to(s, i + 1, a);
    }
}

/// A well-formed key: key characters only, not empty, not led by a digit.
pub open spec fn valid_key(k: Seq<char>) -> bool {
    k.len() > 0 && !is_digit(k[0]) && forall|j: int| 0 <= j < k.len() ==> is_key_char(#[trigger] k[j])
}

/// A value written without quotes that needs no unquoting: no comment sign,
/// no whitespace at either end, not led by a quote.
pub open spec fn plain_value(v: Seq<char>) -> bool {
    (forall|j: int| 0 <= j < v.len() ==> #[trigger] v[j] != '#')
        && (v.len() > 0 ==> !is_ws(v[0]) && !is_ws(v.last()) && v[0] != '\'' && v[0] != '"')
}

/// A line whose characters are all whitespace, or whose first character that
/// is not whitespace is `#`, gives no entry.
pub proof fn lemma_blank_or_comment(s: Seq<char>, a: int)
    requires
        0 <= a <= s.len(),
        forall|j: int| 0 <= j < a ==> is_ws(#[trigger] s[j]),
        a == s.len() || s[a] == '#',
    ensures
        parse_spec(s) == Ok::<Option<(Seq<char>, Seq<char>)>, ParseErrorKind>(None),
{
    lemma_skip_ws_to(s, 0, a);
}

/// `KEY=VALUE` with a well-formed key and a plain value gives exactly that
/// key and that value.
pub proof fn lemma_plain_entry(k: Seq<char>, v: Seq<char>)
    requires
        valid_key(k),
        plain_value(v),
    ensures
        parse_spec(k + seq!['='] + v) == Ok::<_, ParseErrorKind>(Some((k, v))),
{
    let s = k + seq!['='] + v;
    let n = k.len() as int;
    assert(s[0] == k[0]);
    assert(is_key_char(k[0]));
    lemma_skip_ws_to(s, 0, 0);
    assert(!is_ws(s[s.len() - 1])) by {
        if v.len() > 0 {
            assert(s[s.len() - 1] == v.last());
        } else {
            assert(s[s.len() - 1] == '=');
        }
    }
    assert(trim_back(s, 0, s.len() as int) == s.len());
    assert(s.subrange(0, s.len() as int) =~= s);
    assert forall|j: int| 0 <= j < n implies is_key_char(#[trigger] s[j]) by {
        assert(s[j] == k[j]);
    }
    assert(s[n] == '=');
    lemma_key_run_to(s, 0, n);
    lemma_skip_ws_to(s, n, n);
    if v.len() > 0 {
        assert(s[n + 1] == v[0]);
    }
    lemma_skip_ws_to(s, n + 1, n + 1);
    assert forall|j: int| n + 1 <= j < s.len() implies #[trigger] s[j] != '#' by {
        assert(s[j] == v[j - n - 1]);
    }
    lemma_find_to(s, n + 1, s.len() as int, '#');
    if v.len() > 0 {
        assert(s[s.len() - 1] == v.last());
    }
    assert(trim_back(s, n + 1, s.len() as int) == s.len());
    assert(s.subrange(0, n) =~= k);
    assert(s.subrange(n + 1, s.len() as int) =~= v);
    assert(key_run(s, 0) == n);
    assert(skip_ws(s, n) == n);
    assert(skip_ws(s, n + 1) == n + 1);
    if v.len() == 0 {
        assert(v =~= Seq::<char>::empty());
    } else {
        assert(s[n + 1] != '\'' && s[n + 1] != '"');
        assert(find(s, n + 1, '#') == s.len());
    }
    assert(value_of(s, n + 1) == Ok::<_, ParseErrorKind>(v));
}

/// `KEY='VALUE'` with a well-formed key and no single quote in the value
/// gives exactly that key and the value without its quotes.
pub proof fn lemma_single_quoted_entry(k: Seq<char>, v: Seq<char>)
    requires
        valid_key(k),
        forall|j: int| 0 <= j < v.len() ==> #[trigger] v[j] != '\'',
    ensures
        parse_spec(k + seq!['=', '\''] + v + seq!['\'']) == Ok::<_, ParseErrorKind>(Some((k, v))),
{
    let s = k + seq!['=', '\''] + v + seq!['\''];
    let n = k.len() as int;
    assert(s[0] == k[0]);
    assert(is_key_char(k[0]));
    lemma_skip_ws_to(s, 0, 0);
    assert(s[s.len() - 1] == '\'');
    assert(trim_back(s, 0, s.len() as int) == s.len());
    assert(s.subrange(0, s.len() as int) =~= s);
    assert forall|j: int| 0 <= j < n implies is_key_char(#[trigger] s[j]) by {
        assert(s[j] == k[j]);
    }
    assert(s[n] == '=');
    lemma_key_run_to(s, 0, n);
    lemma_skip_ws_to(s, n, n);
    assert(s[n + 1] == '\'');
    lemma_skip_ws_to(s, n + 1, n + 1);
    assert forall|j: int| n + 2 <= j < s.len() - 1 implies #[trigger] s[j] != '\'' by {
        assert(s[j] == v[j - n - 2]);
    }
    lemma_find_to(s, n + 2, s.len() - 1, '\'');
    lemma_skip_ws_to(s, s.len() as int, s.len() as int);
    assert(s.subrange(0, n) =~= k);
    assert(s.subrange(n + 2, s.len() - 1) =~= v);
}

proof fn lemma_expand_plain(v: Seq<char>, i: int, out: Seq<char>, cache: Seq<(Seq<char>, Seq<char>)>, env: Seq<(Seq<char>, Seq<char>)>)
    requires
        0 <= i <= v.len(),
        forall|j: int| 0 <= j < v.len() ==> #[trigger] v[j] != '$',
    ensures
        expand(v, i, out, cache, env) == out + v.subrange(i, v.len() as int),
    decreases v.len() - i,
{
    if i < v.len() {
        lemma_expand_plain(v, i + 1, out.push(v[i]), cache, env);
        assert(out.push(v[i]) + v.subrange(i + 1, v.len() as int) =~= out + v.subrange(i, v.len() as int));
    } else {
        assert(out + v.subrange(i, v.len() as int) =~= out);
    }
}

/// A value without `$` resolves to itself, whatever came before it.
pub proof fn lemma_expand_without_references(v: Seq<char>, cache: Seq<(Seq<char>, Seq<char>)>, env: Seq<(Seq<char>, Seq<char>)>)
    requires
        forall|j: int| 0 <= j < v.len() ==> #[trigger] v[j] != '$',
    ensures
        expand(v, 0, Seq::empty(), cache, env) == v,
{
    lemma_expand_plain(v, 0, Seq::empty(), cache, env);
    assert(Seq::<char>::empty() + v.subrange(0, v.len() as int) =~= v);
}

/// How a character is written inside double quotes.
pub open spec fn escape(c: char) -> Seq<char> {
    if c == '\n' {
        seq!['\\', 'n']
    } else if c == '\t' {
        seq!['\\', 't']
    } else if c == '"' {
        seq!['\\', '"']
    } else if c == '\\' {
        seq!['\\', '\\']
    } else {
        seq![c]
    }
}

/// How a value is written inside double quotes.
pub open spec fn escaped(v: Seq<char>) -> Seq<char>
    decreases v.len(),
{
    if v.len() == 0 { Seq::empty() } else { escape(v[0]) + escaped(v.drop_first()) }
}

proof fn lemma_dq_escaped(t: Seq<char>, i: int, v: Seq<char>, out: Seq<char>)
    requires
        0 <= i,
        i + escaped(v).len() < t.len(),
        t.subrange(i, i + escaped(v).len()) == escaped(v),
        t[i + escaped(v).len()] == '"',
    ensures
        dq_scan(t, i, out) == Ok::<_, ParseErrorKind>((out + v, i + escaped(v).len())),
    decreases v.len(),
{
    if v.len() == 0 {
        assert(out + v =~= out);
    } else {
        let c = v[0];
        let w = escape(c).len() as int;
        let rest = v.drop_first();
        assert(escaped(v) == escape(c) + escaped(rest));
        assert forall|j: int| 0 <= j < w implies t[i + j] == #[trigger] escape(c)[j] by {
            assert(t.subrange(i, i + escaped(v).len())[j] == escaped(v)[j]);
        }
        assert(t.subrange(i + w, i + w + escaped(rest).len()) =~= escaped(rest)) by {
            assert forall|j: int| 0 <= j < escaped(rest).len() implies
                #[trigger] t.subrange(i + w, i + w + escaped(rest).len())[j] == escaped(rest)[j] by {
                assert(t.subrange(i, i + escaped(v).len())[w + j] == escaped(v)[w + j]);
            }
        }
        lemma_dq_escaped(t, i + w, rest, out.push(c));
        assert(out.push(c) + rest =~= out + v);
        if c == '\n' || c == '\t' || c == '"' || c == '\\' {
            assert(t[i] == '\\');
            assert(dq_scan(t, i, out) == dq_scan(t, i + 2, out.push(c)));
        } else {
            assert(escape(c) == seq![c]);
            assert(t[i + 0] == escape(c)[0]);
            assert(t[i] == c);
            assert(dq_scan(t, i, out) == dq_scan(t, i + 1, out.push(c)));
        }
    }
}

/// `KEY="VALUE"`, with a well-formed key and any value written with its
/// escapes, gives exactly that key and that value.
pub proof fn lemma_double_quoted_entry(k: Seq<char>, v: Seq<char>)
    requires
        valid_key(k),
    ensures
        parse_spec(k + seq!['=', '"'] + escaped(v) + seq!['"']) == Ok::<_, ParseErrorKind>(Some((k, v))),
{
    let s = k + seq!['=', '"'] + escaped(v) + seq!['"'];
    let n = k.len() as int;
    let m = escaped(v).len() as int;
    assert(s[0] == k[0]);
    assert(is_key_char(k[0]));
    lemma_skip_ws_to(s, 0, 0);
    assert(s[s.len() - 1] == '"');
    assert(trim_back(s, 0, s.len() as int) == s.len());
    assert(s.subrange(0, s.len() as int) =~= s);
    assert forall|j: int| 0 <= j < n implies is_key_char(#[trigger] s[j]) by {
        assert(s[j] == k[j]);
    }
    assert(s[n] == '=');
    lemma_key_run_to(s, 0, n);
    lemma_skip_ws_to(s, n, n);
    assert(s[n + 1] == '"');
    lemma_skip_ws_to(s, n + 1, n + 1);
    assert(s.subrange(n + 2, n + 2 + m) =~= escaped(v));
    assert(s[n + 2 + m] == '"');
    lemma_dq_escaped(s, n + 2, v, Seq::empty());
    assert(Seq::<char>::empty() + v =~= v);
    lemma_skip_ws_to(s, s.len() as int, s.len() as int);
    assert(s.subrange(0, n) =~= k);
}

/// `${NAME}`, for a well-formed name, stands for what the name resolves to:
/// its latest entry in this pass, else its value in the environment, else
/// nothing.
pub proof fn lemma_reference(name: Seq<char>, cache: Seq<(Seq<char>, Seq<char>)>, env: Seq<(Seq<char>, Seq<char>)>)
    requires
        valid_key(name),
    ensures
        expand(seq!['$', '{'] + name + seq!['}'], 0, Seq::empty(), cache, env) == lookup(name, cache, env),
{
    let v = seq!['$', '{'] + name + seq!['}'];
    let e: int = name.len() as int + 2;
    assert forall|j: int| 2 <= j < e implies is_key_char(#[trigger] v[j]) by {
        assert(v[j] == name[j - 2]);
    }
    assert(v[e] == '}');
    lemma_key_run_to(v, 2, e);
    assert(v.subrange(2, e) =~= name);
    assert(v[0] == '$' && v[1] == '{');
    assert(v.len() == e + 1);
    let out = Seq::<char>::empty() + lookup(name, cache, env);
    assert(out =~= lookup(name, cache, env));
    assert(expand(v, e + 1, out, cache, env) == out);
    assert(expand(v, 0, Seq::empty(), cache, env) == expand(v, e + 1, out, cache, env));
}

/// Relies on str::chars: the characters of `s`, in order.
#[verifier::external_body]
pub(crate) fn chars_of(s: &str) -> (r: Vec<char>)
    ensures
        r@ == s@,
{
    s.chars().collect()
}

/// Relies on FromIterator<char> for String: the string of these characters.
#[verifier::external_body]
fn string_of(v: &[char]) -> (r: String)
    ensures
        r@ == v@,
{
    v.iter().collect()
}

fn ws(c: char) -> (r: bool)
    ensures
        r == is_ws(c),
{
    c == ' ' || c == '\t' || c == '\r' || c == '\n' || c == '\u{b}' || c == '\u{c}'
}

fn key_char(c: char) -> (r: bool)
    ensures
        r == is_key_char(c),
{
    ('a' <= c && c <= 'z') || ('A' <= c && c <= 'Z') || ('0' <= c && c <= '9') || c == '_'
}

fn exec_skip_ws(s: &Vec<char>, i0: usize) -> (r: usize)
    requires
        i0 <= s@.len(),
    ensures
        r == skip_ws(s@, i0 as int),
        i0 <= r <= s@.len(),
{
    let mut i = i0;
    while i < s.len() && ws(s[i])
        invariant
            i0 <= i <= s@.len(),
            skip_ws(s@, i as int) == skip_ws(s@, i0 as int),
        decreases s@.len() - i,
    {
        i = i + 1;
    }
    i
}

fn exec_find(s: &Vec<char>, i0: usize, c: char) -> (r: usize)
    requires
        i0 <= s@.len(),
    ensures
        r == find(s@, i0 as int, c),
        i0 <= r <= s@.len(),
{
    let mut i = i0;
    while i < s.len() && s[i] != c
        invariant
            i0 <= i <= s@.len(),
            find(s@, i as int, c) == find(s@, i0 as int, c),
        decreases s@.len() - i,
    {
        i = i + 1;
    }
    i
}

fn exec_trim_back(s: &Vec<char>, lo: usize, j0: usize) -> (r: usize)
    requires
        lo <= j0 <= s@.len(),
    ensures
        r == trim_back(s@, lo as int, j0 as int),
        lo <= r <= j0,
{
    let mut j = j0;
    while lo < j && ws(s[j - 1])
        invariant
            lo <= j <= j0,
            j0 <= s@.len(),
            trim_back(s@, lo as int, j as int) == trim_back(s@, lo as int, j0 as int),
        decreases j,
    {
        j = j - 1;
    }
    j
}

fn slice_of(s: &Vec<char>, a: usize, b: usize) -> (r: Vec<char>)
    requires
        a <= b <= s@.len(),
    ensures
        r@ == s@.subrange(a as int, b as int),
{
    let mut r: Vec<char> = Vec::new();
    let mut i = a;
    while i < b
        invariant
            a <= i <= b,
            b <= s@.len(),
            r@ == s@.subrange(a as int, i as int),
        decreases b - i,
    {
        r.push(s[i]);
        assert(r@ =~= s@.subrange(a as int, i + 1));
        i = i + 1;
    }
    r
}

fn exec_body(t: Vec<char>) -> (r: Vec<char>)
    ensures
        r@ == body(t@),
{
    if t.len() > 6 && t[0] == 'e' && t[1] == 'x' && t[2] == 'p' && t[3] == 'o' && t[4] == 'r' && t[5] == 't'
        && ws(t[6]) {
        let b = exec_skip_ws(&t, 6);
        slice_of(&t, b, t.len())
    } else {
        t
    }
}

fn exec_dq_scan(t: &Vec<char>, i0: usize) -> (r: Result<(Vec<char>, usize), ParseErrorKind>)
    requires
        i0 <= t@.len(),
    ensures
        match r {
            Ok((v, q)) => dq_scan(t@, i0 as int, Seq::empty()) == Ok::<_, ParseErrorKind>((v@, q as int)) && q < t@.len(),
            Err(e) => dq_scan(t@, i0 as int, Seq::empty()) == Err::<(Seq<char>, int), ParseErrorKind>(e),
        },
{
    let mut out: Vec<char> = Vec::new();
    let mut i = i0;
    while i < t.len()
        invariant
            i0 <= i <= t@.len(),
            dq_scan(t@, i as int, out@) == dq_scan(t@, i0 as int, Seq::empty()),
        decreases t@.len() - i,
    {
        let c = t[i];
        if c == '"' {
            return Ok((out, i));
        } else if c == '\\' {
            if i + 1 >= t.len() {
                return Err(ParseErrorKind::UnterminatedQuote);
            }
            let d = t[i + 1];
            let u = if d == 'n' {
                '\n'
            } else if d == 't' {
                '\t'
            } else if d == '"' {
                '"'
            } else if d == '\\' {
                '\\'
            } else {
                return Err(ParseErrorKind::InvalidEscape);
            };
            out.push(u);
            i = i + 2;
        } else {
            out.push(c);
            i = i + 1;
        }
    }
    Err(ParseErrorKind::UnterminatedQuote)
}

/// Parses one line: `Ok(None)` for a blank or comment line, the key and the
/// value of a `KEY=VALUE` line, or why the line is malformed.
pub fn parse_line(line: &str) -> (r: Result<Option<(String, String)>, ParseErrorKind>)
    ensures
        match r {
            Ok(Some((k, v))) => parse_spec(line@) == Ok::<_, ParseErrorKind>(Some((k@, v@))),
            Ok(None) => parse_spec(line@) == Ok::<Option<(Seq<char>, Seq<char>)>, ParseErrorKind>(None),
            Err(e) => parse_spec(line@) == Err::<Option<(Seq<char>, Seq<char>)>, ParseErrorKind>(e),
        },
{
    let s = chars_of(line);
    let a = exec_skip_ws(&s, 0);
    if a >= s.len() || s[a] == '#' {
        return Ok(None);
    }
    let b = exec_trim_back(&s, a, s.len());
    let t = exec_body(slice_of(&s, a, b));
    let ke = exec_key_run_from(&t, 0);
    if ke == 0 || ('0' <= t[0] && t[0] <= '9') {
        return Err(ParseErrorKind::InvalidKey);
    }
    let e = exec_skip_ws(&t, ke);
    if e >= t.len() || t[e] != '=' {
        return Err(ParseErrorKind::MissingEquals);
    }
    let v0 = exec_skip_ws(&t, e + 1);
    let key = string_of(slice_of(&t, 0, ke).as_slice());
    if v0 >= t.len() {
        return Ok(Some((key, String::new())));
    }
    let c = t[v0];
    if c == '"' {
        match exec_dq_scan(&t, v0 + 1) {
            Err(e) => Err(e),
            Ok((v, q)) => {
                let w = exec_skip_ws(&t, q + 1);
                if w < t.len() && t[w] != '#' {
                    return Err(ParseErrorKind::TrailingCharacters);
                }
                Ok(Some((key, string_of(v.as_slice()))))
            },
        }
    } else if c == '\'' {
        let q = exec_find(&t, v0 + 1, c);
        if q >= t.len() {
            return Err(ParseErrorKind::UnterminatedQuote);
        }
        let w = exec_skip_ws(&t, q + 1);
        if w < t.len() && t[w] != '#' {
            return Err(ParseErrorKind::TrailingCharacters);
        }
        let v = string_of(slice_of(&t, v0 + 1, q).as_slice());
        Ok(Some((key, v)))
    } else {
        let h = exec_find(&t, v0, '#');
        let z = exec_trim_back(&t, v0, h);
        let v = string_of(slice_of(&t, v0, z).as_slice());
        Ok(Some((key, v)))
    }
}

/// The line without whitespace at either end.
pub open spec fn trimmed(s: Seq<char>) -> Seq<char> {
    let a = skip_ws(s, 0);
    s.subrange(a, trim_back(s, a, s.len() as int))
}

/// The value is written in single quotes, and so is taken literally.
pub open spec fn single_quoted(s: Seq<char>) -> bool {
    let t = body(trimmed(s));
    let v0 = skip_ws(t, skip_ws(t, key_run(t, 0)) + 1);
    0 <= v0 < t.len() && t[v0] == '\''
}

/// The value of the last entry of `s` with key `k`.
pub open spec fn find_last(s: Seq<(Seq<char>, Seq<char>)>, k: Seq<char>) -> Option<Seq<char>>
    decreases s.len(),
{
    if s.len() == 0 {
        None
    } else if s.last().0 == k {
        Some(s.last().1)
    } else {
        find_last(s.drop_last(), k)
    }
}

/// What `${k}` or `$k` stands for: the entries of this pass first, then the
/// environment, else nothing.
pub open spec fn lookup(k: Seq<char>, cache: Seq<(Seq<char>, Seq<char>)>, env: Seq<(Seq<char>, Seq<char>)>) -> Seq<char> {
    match find_last(cache, k) {
        Some(v) => v,
        None => match find_last(env, k) {
            Some(v) => v,
            None => Seq::empty(),
        },
    }
}

/// `v` from index `i` on, with `${NAME}` and `$NAME` replaced, appended to
/// `out`; a bare `$NAME` does not start with a digit. A `$` that starts
/// neither stays as it is.
pub open spec fn expand(v: Seq<char>, i: int, out: Seq<char>, cache: Seq<(Seq<char>, Seq<char>)>, env: Seq<(Seq<char>, Seq<char>)>) -> Seq<char>
    decreases v.len() - i,
{
    if i < 0 || i >= v.len() {
        out
    } else if v[i] == '$' && i + 1 < v.len() && v[i + 1] == '{' && i + 2 <= key_run(v, i + 2) < v.len()
        && v[key_run(v, i + 2)] == '}' {
        let e = key_run(v, i + 2);
        expand(v, e + 1, out + lookup(v.subrange(i + 2, e), cache, env), cache, env)
    } else if v[i] == '$' && i + 1 < v.len() && is_key_char(v[i + 1]) && !is_digit(v[i + 1])
        && i + 1 < key_run(v, i + 1) <= v.len() {
        let e = key_run(v, i + 1);
        expand(v, e, out + lookup(v.subrange(i + 1, e), cache, env), cache, env)
    } else {
        expand(v, i + 1, out.push(v[i]), cache, env)
    }
}

proof fn lemma_key_run_bounds(s: Seq<char>, i: int)
    requires
        0 <= i <= s.len(),
    ensures
        i <= key_run(s, i) <= s.len(),
    decreases s.len() - i,
{
    if i < s.len() && is_key_char(s[i]) {
        lemma_key_run_bounds(s, i + 1);
    }
}

/// Whether the value of `line` is written in single quotes.
pub fn is_single_quoted(line: &str) -> (r: bool)
    ensures
        r == single_quoted(line@),
{
    let s = chars_of(line);
    let a = exec_skip_ws(&s, 0);
    let b = exec_trim_back(&s, a, s.len());
    let t = exec_body(slice_of(&s, a, b));
    let ke = exec_key_run_from(&t, 0);
    let e = exec_skip_ws(&t, ke);
    if e >= t.len() {
        assert(skip_ws(t@, e + 1) == e + 1);
        return false;
    }
    let v0 = exec_skip_ws(&t, e + 1);
    v0 < t.len() && t[v0] == '\''
}

fn find_last_exec(s: &Vec<(String, String)>, k: &String) -> (r: Option<String>)
    ensures
        match r {
            Some(v) => find_last(pair_views(s@), k@) == Some(v@),
            None => find_last(pair_views(s@), k@) is None,
        },
{
    let mut j: usize = s.len();
    proof {
        assert(pair_views(s@).subrange(0, j as int) =~= pair_views(s@));
    }
    while j > 0
        invariant
            j <= s@.len(),
            find_last(pair_views(s@).subrange(0, j as int), k@) == find_last(pair_views(s@), k@),
        decreases j,
    {
        let ghost ps = pair_views(s@).subrange(0, j as int);
        proof {
            assert(ps.drop_last() =~= pair_views(s@).subrange(0, j - 1));
            assert(ps.last() == (s@[j - 1].0@, s@[j - 1].1@));
        }
        if s[j - 1].0 == *k {
            return Some(s[j - 1].1.clone());
        }
        j = j - 1;
    }
    None
}

fn lookup_exec(k: &String, cache: &Vec<(String, String)>, env: &Vec<(String, String)>) -> (r: String)
    ensures
        r@ == lookup(k@, pair_views(cache@), pair_views(env@)),
{
    match find_last_exec(cache, k) {
        Some(v) => v,
        None => match find_last_exec(env, k) {
            Some(v) => v,
            None => String::new(),
        },
    }
}

fn push_all(out: &mut Vec<char>, x: &Vec<char>)
    ensures
        final(out)@ == old(out)@ + x@,
{
    let mut i: usize = 0;
    while i < x.len()
        invariant
            i <= x@.len(),
            out@ == old(out)@ + x@.subrange(0, i as int),
        decreases x@.len() - i,
    {
        out.push(x[i]);
        assert(out@ =~= old(out)@ + x@.subrange(0, i + 1));
        i = i + 1;
    }
    assert(x@.subrange(0, x@.len() as int) =~= x@);
}

/// `v` with `${NAME}` and `$NAME` replaced by what they stand for among the
/// `cache` entries of this pass, else the `env` entries, else nothing.
pub fn expand_value(v: &str, cache: &Vec<(String, String)>, env: &Vec<(String, String)>) -> (r: String)
    ensures
        r@ == expand(v@, 0, Seq::empty(), pair_views(cache@), pair_views(env@)),
{
    let s = chars_of(v);
    let ghost c = pair_views(cache@);
    let ghost en = pair_views(env@);
    let mut out: Vec<char> = Vec::new();
    let mut i: usize = 0;
    while i < s.len()
        invariant
            i <= s@.len(),
            s@ == v@,
            c == pair_views(cache@),
            en == pair_views(env@),
            expand(s@, i as int, out@, c, en) == expand(v@, 0, Seq::empty(), c, en),
        decreases s@.len() - i,
    {
        let ghost i0 = i as int;
        let ghost out0 = out@;
        let mut done = false;
        if s[i] == '$' && i + 1 < s.len() {
            if s[i + 1] == '{' {
                proof { lemma_key_run_bounds(s@, i + 2); }
                let e = exec_key_run_from(&s, i + 2);
                if e < s.len() && s[e] == '}' {
                    let name = string_of(slice_of(&s, i + 2, e).as_slice());
                    let looked = lookup_exec(&name, cache, env);
                    let val = chars_of(looked.as_str());
                    assert(looked@ == lookup(name@, c, en));
                    push_all(&mut out, &val);
                    assert(name@ == s@.subrange(i0 + 2, e as int));
                    assert(val@ == lookup(s@.subrange(i0 + 2, e as int), c, en));
                    assert(out@ == out0 + lookup(s@.subrange(i0 + 2, e as int), c, en));
                    assert(expand(s@, i0, out0, c, en) == expand(s@, e + 1, out@, c, en));
                    i = e + 1;
                    done = true;
                }
            } else if key_char(s[i + 1]) && !('0' <= s[i + 1] && s[i + 1] <= '9') {
                proof {
                    lemma_key_run_bounds(s@, i + 1);
                    lemma_key_run_bounds(s@, i + 2);
                }
                let e = exec_key_run_from(&s, i + 1);
                assert(key_run(s@, i0 + 1) == key_run(s@, i0 + 2));
                let name = string_of(slice_of(&s, i + 1, e).as_slice());
                let looked = lookup_exec(&name, cache, env);
                let val = chars_of(looked.as_str());
                assert(looked@ == lookup(name@, c, en));
                push_all(&mut out, &val);
                assert(name@ == s@.subrange(i0 + 1, e as int));
                assert(val@ == lookup(s@.subrange(i0 + 1, e as int), c, en));
                assert(out@ == out0 + lookup(s@.subrange(i0 + 1, e as int), c, en));
                assert(expand(s@, i0, out0, c, en) == expand(s@, e as int, out@, c, en));
                i = e;
                done = true;
            }
        }
        if !done {
            proof {
                if s@[i0] == '$' && i0 + 1 < s@.len() && s@[i0 + 1] == '{' {
                    lemma_key_run_bounds(s@, i0 + 2);
                }
            }
            out.push(s[i]);
            assert(expand(s@, i0, out0, c, en) == expand(s@, i0 + 1, out@, c, en));
            i = i + 1;
        }
    }
    string_of(out.as_slice())
}

fn exec_key_run_from(s: &Vec<char>, i0: usize) -> (r: usize)
    requires
        i0 <= s@.len(),
    ensures
        r == key_run(s@, i0 as int),
        i0 <= r <= s@.len(),
{
    let mut i = i0;
    while i < s.len() && key_char(s[i])
        invariant
            i0 <= i <= s@.len(),
            key_run(s@, i as int) == key_run(s@, i0 as int),
        decreases s@.len() - i,
    {
        i = i + 1;
    }
    i
}

} // verus!
