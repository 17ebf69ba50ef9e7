//! The filter language: an ordered list of shell tokens beginning with
//! `where` is compiled into an SQL-style boolean fragment. A token
//! `key=value` becomes `` key = "value" ``; after one of the operators
//! `=`, `!=`, `like` the next token is emitted as a quoted literal;
//! every other token is emitted verbatim. An empty token list yields the
//! match-all predicate `1`.
use crate::chars::{chars_eq_str, chars_to_string, find_char, lemma_find_char, lemma_find_char_at, lemma_find_char_none, lower_char, lower_chars, str_to_chars, to_lower};
use vstd::prelude::*;

verus! {

/// The token list did not begin with the keyword `where`.
#[derive(Debug, Clone, Copy, PartialEq, Eq, Structural)]
pub struct FilterSyntaxError;

/// Source-level escaping of one character inside a quoted literal.
pub open spec fn esc_char(c: char) -> Seq<char> {
    if c == '"' {
        seq!['\\', '"']
    } else if c == '\\' {
        seq!['\\', '\\']
    } else if c == '\n' {
        seq!['\\', 'n']
    } else if c == '\r' {
        seq!['\\', 'r']
    } else if c == '\t' {
        seq!['\\', 't']
    } else if c == '\0' {
        seq!['\\', '0']
    } else {
        seq![c]
    }
}

/// Source-level escaping of a whole literal.
pub open spec fn esc(s: Seq<char>) -> Seq<char>
    decreases s.len(),
{
    if s.len() == 0 {
        Seq::empty()
    } else {
        esc_char(s[0]) + esc(s.drop_first())
    }
}

pub proof fn lemma_esc_push(s: Seq<char>, c: char)
    ensures
        esc(s.push(c)) == esc(s) + esc_char(c),
    decreases s.len(),
{
    if s.len() == 0 {
        assert(s.push(c).drop_first() =~= Seq::<char>::empty());
        assert(esc(Seq::<char>::empty()) == Seq::<char>::empty());
        assert(s.push(c)[0] == c);
        assert(esc(s.push(c)) =~= esc_char(c));
        assert(esc(s) + esc_char(c) =~= esc_char(c));
    } else {
        assert(s.push(c).drop_first() =~= s.drop_first().push(c));
        lemma_esc_push(s.drop_first(), c);
        assert(esc(s.push(c)) =~= esc(s) + esc_char(c));
    }
}

/// A literal surrounded by double quotes, interior escaping as in a
/// conventional source-level string literal.
pub open spec fn quoted(s: Seq<char>) -> Seq<char> {
    seq!['"'] + esc(s) + seq!['"']
}

/// A token is an operator when, lower-cased, it is `=`, `!=` or `like`.
pub open spec fn is_operator(tok: Seq<char>) -> bool {
    ||| lower_chars(tok) == "="@
    ||| lower_chars(tok) == "!="@
    ||| lower_chars(tok) == "like"@
}

/// Splits `key=value` at the first `=` when it is not the first
/// character.
pub open spec fn kv_split(tok: Seq<char>) -> Option<(Seq<char>, Seq<char>)> {
    match find_char(tok, '=') {
        Some(i) => if i != 0 {
            Some((tok.subrange(0, i), tok.subrange(i + 1, tok.len() as int)))
        } else {
            None
        },
        None => None,
    }
}

/// One parsing step: the query grown by this token's emission, and
/// whether the next token is a quoted literal.
pub open spec fn step(q: Seq<char>, expect_value: bool, tok: Seq<char>) -> (Seq<char>, bool) {
    match kv_split(tok) {
        Some(kv) => (q + seq![' '] + kv.0 + seq![' ', '=', ' '] + quoted(kv.1), expect_value),
        None => {
            if expect_value {
                (q + seq![' '] + quoted(tok), false)
            } else if is_operator(tok) {
                (q + seq![' '] + tok, true)
            } else {
                (q + seq![' '] + tok, false)
            }
        },
    }
}

/// Runs the parser over the remaining tokens.
pub open spec fn run_tokens(q: Seq<char>, expect_value: bool, toks: Seq<Seq<char>>) -> Seq<char>
    decreases toks.len(),
{
    if toks.len() == 0 {
        q
    } else {
        let next = step(q, expect_value, toks[0]);
        run_tokens(next.0, next.1, toks.drop_first())
    }
}

/// The predicate the token list compiles to: `1` for an empty list,
/// the emitted fragment after the `where` keyword otherwise, and no
/// predicate at all when the list does not begin with `where`.
pub open spec fn spec_parse(args: Seq<Seq<char>>) -> Option<Seq<char>> {
    if args.len() == 0 {
        Some(seq!['1'])
    } else if lower_chars(args[0]) == "where"@ {
        Some(run_tokens(Seq::empty(), false, args.drop_first()))
    } else {
        None
    }
}

/// The views of a list of argument strings.
pub open spec fn arg_views(args: Seq<String>) -> Seq<Seq<char>> {
    args.map_values(|s: String| s@)
}

fn find_eq(chars: &Vec<char>) -> (r: Option<usize>)
    ensures
        match find_char(chars@, '=') {
            Some(i) => r == Some(i as usize),
            None => r is None,
        },
{
    let mut i: usize = 0;
    while i < chars.len()
        invariant
            i <= chars@.len(),
            forall|j: int| 0 <= j < i ==> chars@[j] != '=',
        decreases chars@.len() - i,
    {
        if chars[i] == '=' {
            proof {
                lemma_find_char_at(chars@, '=', i as int);
            }
            return Some(i);
        }
        i = i + 1;
    }
    proof {
        lemma_find_char_none(chars@, '=');
    }
    None
}

fn extend_range(out: &mut Vec<char>, s: &Vec<char>, from: usize, to: usize)
    requires
        from <= to <= s@.len(),
    ensures
        final(out)@ == old(out)@ + s@.subrange(from as int, to as int),
{
    let mut i: usize = from;
    while i < to
        invariant
            from <= i <= to <= s@.len(),
            out@ == old(out)@ + s@.subrange(from as int, i as int),
        decreases to - i,
    {
        out.push(s[i]);
        i = i + 1;
        proof {
            assert(out@ =~= old(out)@ + s@.subrange(from as int, i as int));
        }
    }
    proof {
        assert(out@ =~= old(out)@ + s@.subrange(from as int, to as int));
    }
}

pub fn push_quoted(out: &mut Vec<char>, s: &Vec<char>, from: usize)
    requires
        from <= s@.len(),
    ensures
        final(out)@ == old(out)@ + quoted(s@.subrange(from as int, s@.len() as int)),
{
    let ghost lit = s@.subrange(from as int, s@.len() as int);
    out.push('"');
    let mut i: usize = from;
    while i < s.len()
        invariant
            from <= i <= s@.len(),
            lit == s@.subrange(from as int, s@.len() as int),
            out@ == old(out)@ + seq!['"'] + esc(s@.subrange(from as int, i as int)),
        decreases s@.len() - i,
    {
        let c = s[i];
        if c == '"' {
            out.push('\\');
            out.push('"');
        } else if c == '\\' {
            out.push('\\');
            out.push('\\');
        } else if c == '\n' {
            out.push('\\');
            out.push('n');
        } else if c == '\r' {
            out.push('\\');
            out.push('r');
        } else if c == '\t' {
            out.push('\\');
            out.push('t');
        } else if c == '\0' {
            out.push('\\');
            out.push('0');
        } else {
            out.push(c);
        }
        proof {
            lemma_esc_push(s@.subrange(from as int, i as int), c);
            assert(s@.subrange(from as int, i + 1int) =~= s@.subrange(from as int, i as int).push(
                c,
            ));
            assert(out@ =~= old(out)@ + seq!['"'] + esc(s@.subrange(from as int, i + 1int)));
        }
        i = i + 1;
    }
    out.push('"');
    proof {
        assert(out@ =~= old(out)@ + quoted(lit));
    }
}

/// An opaque predicate over a table's columns, carried as the SQL
/// fragment it was compiled to.
#[derive(Debug)]
pub struct Filter {
    query: String,
}

impl Filter {
    pub closed spec fn q(self) -> Seq<char> {
        self.query@
    }

    /// Wraps an already-compiled fragment.
    pub fn new(query: &str) -> (f: Filter)
        ensures
            f.q() == query@,
    {
        Filter { query: query.to_owned() }
    }

    /// The compiled fragment.
    pub fn query(&self) -> (r: &str)
        ensures
            r@ == self.q(),
    {
        self.query.as_str()
    }

    /// Compiles a token list; the list must be empty or begin with the
    /// keyword `where` (case-insensitive).
    pub fn parse(args: &Vec<String>) -> (r: Result<Filter, FilterSyntaxError>)
        ensures
            match r {
                Ok(f) => spec_parse(arg_views(args@)) == Some(f.q()),
                Err(_) => spec_parse(arg_views(args@)) is None,
            },
    {
        let ghost toks = arg_views(args@);
        if args.len() == 0 {
            let f = Filter { query: String::from_str("1") };
            proof {
                reveal_strlit("1");
                assert(f.q() =~= seq!['1']);
            }
            return Ok(f);
        }
        let first_chars = str_to_chars(args[0].as_str());
        let first = to_lower(&first_chars);
        if !chars_eq_str(&first, "where") {
            return Err(FilterSyntaxError);
        }
        let mut q: Vec<char> = Vec::new();
        let mut expect_value = false;
        let mut i: usize = 1;
        while i < args.len()
            invariant
                1 <= i <= args@.len(),
                toks == arg_views(args@),
                toks.len() == args@.len(),
                run_tokens(q@, expect_value, toks.subrange(i as int, toks.len() as int))
                    == run_tokens(Seq::empty(), false, toks.drop_first()),
            decreases args@.len() - i,
        {
            let ghost pre_q = q@;
            let ghost pre_e = expect_value;
            let ghost rest = toks.subrange(i as int, toks.len() as int);
            let chars = str_to_chars(args[i].as_str());
            proof {
                assert(chars@ == toks[i as int]);
            }
            let mut split: Option<usize> = None;
            match find_eq(&chars) {
                Some(idx) => {
                    if idx != 0 {
                        split = Some(idx);
                    }
                },
                None => {},
            }
            match split {
                Some(idx) => {
                    proof {
                        lemma_find_char(chars@, '=');
                        assert(kv_split(toks[i as int]) == Some(
                            (
                                chars@.subrange(0, idx as int),
                                chars@.subrange(idx + 1, chars@.len() as int),
                            ),
                        ));
                    }
                    q.push(' ');
                    extend_range(&mut q, &chars, 0, idx);
                    q.push(' ');
                    q.push('=');
                    q.push(' ');
                    push_quoted(&mut q, &chars, idx + 1);
                    proof {
                        let kv = kv_split(toks[i as int]).unwrap();
                        assert(q@ =~= pre_q + seq![' '] + kv.0 + seq![' ', '=', ' '] + quoted(
                            kv.1,
                        ));
                    }
                },
                None => {
                    proof {
                        lemma_find_char(chars@, '=');
                        assert(kv_split(toks[i as int]) is None);
                    }
                    if expect_value {
                        q.push(' ');
                        push_quoted(&mut q, &chars, 0);
                        expect_value = false;
                        proof {
                            assert(chars@.subrange(0, chars@.len() as int) =~= toks[i as int]);
                            assert(q@ =~= pre_q + seq![' '] + quoted(toks[i as int]));
                        }
                    } else {
                        let low = to_lower(&chars);
                        if chars_eq_str(&low, "=") || chars_eq_str(&low, "!=") || chars_eq_str(
                            &low,
                            "like",
                        ) {
                            expect_value = true;
                        }
                        q.push(' ');
                        extend_range(&mut q, &chars, 0, chars.len());
                        proof {
                            assert(chars@.subrange(0, chars@.len() as int) =~= toks[i as int]);
                            assert(q@ =~= pre_q + seq![' '] + toks[i as int]);
                        }
                    }
                },
            }
            proof {
                assert(rest.drop_first() =~= toks.subrange(i + 1int, toks.len() as int));
                assert((q@, expect_value) == step(pre_q, pre_e, toks[i as int]));
            }
            i = i + 1;
        }
        proof {
            assert(toks.subrange(i as int, toks.len() as int) =~= Seq::<Seq<char>>::empty());
        }
        Ok(Filter { query: chars_to_string(&q) })
    }
}

impl PartialEq for Filter {
    fn eq(&self, other: &Filter) -> (r: bool) {
        self.query == other.query
    }
}

impl vstd::std_specs::cmp::PartialEqSpecImpl for Filter {
    open spec fn obeys_eq_spec() -> bool {
        true
    }

    open spec fn eq_spec(&self, other: &Filter) -> bool {
        self.q() == other.q()
    }
}

/// A comparison operator of the filter grammar.
#[derive(Debug, Clone, Copy, PartialEq, Eq, Structural)]
pub enum FilterOp {
    Eq,
    Ne,
    Like,
}

/// The index of the space that ends the word starting at `i`, or the
/// end of the text.
pub open spec fn word_end(s: Seq<char>, i: int) -> int
    decreases s.len() - i,
{
    if !(0 <= i < s.len()) {
        i
    } else if s[i] == ' ' {
        i
    } else {
        word_end(s, i + 1)
    }
}

/// Reads a quoted literal's interior from `i` up to its closing quote,
/// undoing the escaping `quoted` applied; yields the raw literal and the
/// index after the closing quote.
pub open spec fn scan_lit(s: Seq<char>, i: int) -> Option<(Seq<char>, int)>
    decreases s.len() - i,
{
    if !(0 <= i < s.len()) {
        None
    } else if s[i] == '"' {
        Some((Seq::empty(), i + 1))
    } else if s[i] == '\\' {
        if i + 1 < s.len() {
            let e = s[i + 1];
            let ok = e == '"' || e == '\\' || e == 'n' || e == 'r' || e == 't' || e == '0';
            let u = if e == '"' {
                '"'
            } else if e == '\\' {
                '\\'
            } else if e == 'n' {
                '\n'
            } else if e == 'r' {
                '\r'
            } else if e == 't' {
                '\t'
            } else {
                '\0'
            };
            if ok {
                match scan_lit(s, i + 2) {
                    Some(t) => Some((seq![u] + t.0, t.1)),
                    None => None,
                }
            } else {
                None
            }
        } else {
            None
        }
    } else {
        match scan_lit(s, i + 1) {
            Some(t) => Some((seq![s[i]] + t.0, t.1)),
            None => None,
        }
    }
}

/// Reads one comparison `` col op "lit" `` starting at the space at `i`:
/// the column word, the operator (case-insensitive), the raw literal,
/// and the index after the closing quote.
pub open spec fn scan_clause(s: Seq<char>, i: int) -> Option<(Seq<char>, FilterOp, Seq<char>, int)> {
    if !(0 <= i < s.len() && s[i] == ' ') {
        None
    } else {
        let ce = word_end(s, i + 1);
        if !(i + 1 < ce && ce < s.len()) {
            None
        } else {
            let col = s.subrange(i + 1, ce);
            let oe = word_end(s, ce + 1);
            if !(ce + 1 < oe && oe + 2 <= s.len()) {
                None
            } else {
                let opw = lower_chars(s.subrange(ce + 1, oe));
                if s[oe + 1] != '"' {
                    None
                } else if opw == "="@ {
                    match scan_lit(s, oe + 2) {
                        Some(t) => Some((col, FilterOp::Eq, t.0, t.1)),
                        None => None,
                    }
                } else if opw == "!="@ {
                    match scan_lit(s, oe + 2) {
                        Some(t) => Some((col, FilterOp::Ne, t.0, t.1)),
                        None => None,
                    }
                } else if opw == "like"@ {
                    match scan_lit(s, oe + 2) {
                        Some(t) => Some((col, FilterOp::Like, t.0, t.1)),
                        None => None,
                    }
                } else {
                    None
                }
            }
        }
    }
}

/// Reads a whole predicate: comparisons joined by the connector `and`
/// (case-insensitive), as the filter language emits them.
pub open spec fn scan_pred(s: Seq<char>, i: int) -> Option<Seq<(Seq<char>, FilterOp, Seq<char>)>>
    decreases s.len() - i,
{
    match scan_clause(s, i) {
        Some(t) => {
            let cl = (t.0, t.1, t.2);
            let m = t.3;
            if m == s.len() {
                Some(seq![cl])
            } else if i < m && m + 4 <= s.len() && s[m] == ' ' && lower_chars(
                s.subrange(m + 1, m + 4),
            ) == "and"@ {
                match scan_pred(s, m + 4) {
                    Some(rest) => Some(seq![cl] + rest),
                    None => None,
                }
            } else {
                None
            }
        },
        None => None,
    }
}

/// The comparisons a predicate decomposes into, or nothing when the
/// in-memory scan cannot interpret it.
pub open spec fn parse_pred(q: Seq<char>) -> Option<Seq<(Seq<char>, FilterOp, Seq<char>)>> {
    scan_pred(q, 0)
}

/// SQL `LIKE` over the pattern from `pi` and the text from `ti`: `%`
/// matches any run, `_` one character, letters match ASCII
/// case-insensitively.
pub open spec fn like_at(pat: Seq<char>, pi: int, txt: Seq<char>, ti: int) -> bool
    decreases pat.len() - pi, txt.len() - ti,
{
    if !(0 <= pi <= pat.len() && 0 <= ti <= txt.len()) {
        false
    } else if pi == pat.len() {
        ti == txt.len()
    } else if pat[pi] == '%' {
        like_at(pat, pi + 1, txt, ti) || (ti < txt.len() && like_at(pat, pi, txt, ti + 1))
    } else if ti == txt.len() {
        false
    } else {
        (pat[pi] == '_' || lower_char(pat[pi]) == lower_char(txt[ti])) && like_at(
            pat,
            pi + 1,
            txt,
            ti + 1,
        )
    }
}

/// One comparison's verdict on a rendered column value.
pub open spec fn clause_holds(val: Seq<char>, op: FilterOp, lit: Seq<char>) -> bool {
    match op {
        FilterOp::Eq => val == lit,
        FilterOp::Ne => val != lit,
        FilterOp::Like => like_at(lit, 0, val, 0),
    }
}

/// The views of parsed comparisons.
pub open spec fn clause_views(cl: Seq<(Vec<char>, FilterOp, Vec<char>)>) -> Seq<
    (Seq<char>, FilterOp, Seq<char>),
> {
    cl.map_values(|c: (Vec<char>, FilterOp, Vec<char>)| (c.0@, c.1, c.2@))
}

fn word_end_exec(v: &Vec<char>, i: usize) -> (r: usize)
    ensures
        r as int == word_end(v@, i as int),
        i <= r <= vstd::math::max(i as int, v@.len() as int),
    decreases v@.len() - i,
{
    if i >= v.len() {
        i
    } else if v[i] == ' ' {
        i
    } else {
        word_end_exec(v, i + 1)
    }
}

fn scan_lit_exec(v: &Vec<char>, i: usize, out: &mut Vec<char>) -> (r: Option<usize>)
    ensures
        match scan_lit(v@, i as int) {
            Some(t) => r matches Some(p) && p as int == t.1 && final(out)@ == old(out)@ + t.0 && i
                < p <= v@.len(),
            None => r is None,
        },
    decreases v@.len() - i,
{
    if i >= v.len() {
        return None;
    }
    let c = v[i];
    if c == '"' {
        return Some(i + 1);
    }
    if c == '\\' {
        if i + 1 >= v.len() {
            return None;
        }
        let e = v[i + 1];
        let u: char = if e == '"' {
            '"'
        } else if e == '\\' {
            '\\'
        } else if e == 'n' {
            '\n'
        } else if e == 'r' {
            '\r'
        } else if e == 't' {
            '\t'
        } else if e == '0' {
            '\0'
        } else {
            return None;
        };
        out.push(u);
        let ghost mid = out@;
        let r = scan_lit_exec(v, i + 2, out);
        proof {
            match scan_lit(v@, i + 2) {
                Some(t) => {
                    assert(out@ =~= old(out)@ + (seq![u] + t.0));
                },
                None => {},
            }
        }
        return r;
    }
    out.push(c);
    let ghost mid = out@;
    let r = scan_lit_exec(v, i + 1, out);
    proof {
        match scan_lit(v@, i + 1) {
            Some(t) => {
                assert(out@ =~= old(out)@ + (seq![c] + t.0));
            },
            None => {},
        }
    }
    r
}

fn scan_clause_exec(v: &Vec<char>, i: usize) -> (r: Option<(Vec<char>, FilterOp, Vec<char>, usize)>)
    ensures
        match scan_clause(v@, i as int) {
            Some(t) => r matches Some(p) && p.0@ == t.0 && p.1 == t.1 && p.2@ == t.2 && p.3 as int
                == t.3 && i < p.3 <= v@.len(),
            None => r is None,
        },
{
    if i >= v.len() || v[i] != ' ' {
        return None;
    }
    let ce = word_end_exec(v, i + 1);
    if !(i + 1 < ce && ce < v.len()) {
        return None;
    }
    let mut col: Vec<char> = Vec::new();
    extend_range(&mut col, v, i + 1, ce);
    let oe = word_end_exec(v, ce + 1);
    if !(ce + 1 < oe && oe < v.len() && v.len() - oe >= 2) {
        return None;
    }
    let mut opw: Vec<char> = Vec::new();
    extend_range(&mut opw, v, ce + 1, oe);
    let low = to_lower(&opw);
    if v[oe + 1] != '"' {
        return None;
    }
    let op: FilterOp = if chars_eq_str(&low, "=") {
        FilterOp::Eq
    } else if chars_eq_str(&low, "!=") {
        FilterOp::Ne
    } else if chars_eq_str(&low, "like") {
        FilterOp::Like
    } else {
        return None;
    };
    let mut lit: Vec<char> = Vec::new();
    match scan_lit_exec(v, oe + 2, &mut lit) {
        Some(p) => Some((col, op, lit, p)),
        None => None,
    }
}

/// Decomposes a predicate into the comparisons it joins with `and`;
/// nothing when the text is not of that shape.
pub fn parse_pred_exec(v: &Vec<char>, i: usize) -> (r: Option<Vec<(Vec<char>, FilterOp, Vec<char>)>>)
    ensures
        match scan_pred(v@, i as int) {
            Some(cls) => r matches Some(cl) && clause_views(cl@) == cls,
            None => r is None,
        },
    decreases v@.len() - i,
{
    let t = match scan_clause_exec(v, i) {
        Some(t) => t,
        None => {
            return None;
        },
    };
    let (col, op, lit, m) = t;
    if m == v.len() {
        let mut out: Vec<(Vec<char>, FilterOp, Vec<char>)> = Vec::new();
        out.push((col, op, lit));
        proof {
            let cls = scan_pred(v@, i as int).unwrap();
            assert(clause_views(out@) =~= cls);
        }
        return Some(out);
    }
    if !(m < v.len() && v.len() - m >= 4 && v[m] == ' ') {
        return None;
    }
    let mut conn: Vec<char> = Vec::new();
    extend_range(&mut conn, v, m + 1, m + 4);
    let low = to_lower(&conn);
    if !chars_eq_str(&low, "and") {
        return None;
    }
    match parse_pred_exec(v, m + 4) {
        Some(rest) => {
            let ghost first = {
                let t = scan_clause(v@, i as int).unwrap();
                (t.0, t.1, t.2)
            };
            let mut out: Vec<(Vec<char>, FilterOp, Vec<char>)> = Vec::new();
            out.push((col, op, lit));
            proof {
                assert(clause_views(out@) =~= seq![first]);
            }
            let mut k: usize = 0;
            let ghost rest0 = rest@;
            let rest = rest;
            while k < rest.len()
                invariant
                    k <= rest@.len(),
                    rest@ == rest0,
                    first == ({
                        let t = scan_clause(v@, i as int).unwrap();
                        (t.0, t.1, t.2)
                    }),
                    scan_clause(v@, i as int) is Some,
                    clause_views(out@) == seq![first] + clause_views(rest0).subrange(0, k as int),
                decreases rest@.len() - k,
            {
                let mut a: Vec<char> = Vec::new();
                extend_range(&mut a, &rest[k].0, 0, rest[k].0.len());
                let mut c: Vec<char> = Vec::new();
                extend_range(&mut c, &rest[k].2, 0, rest[k].2.len());
                let b = rest[k].1;
                proof {
                    assert(a@ =~= rest0[k as int].0@);
                    assert(c@ =~= rest0[k as int].2@);
                }
                let ghost pre = out@;
                let ghost item = (a@, b, c@);
                out.push((a, b, c));
                k = k + 1;
                proof {
                    let target = seq![first] + clause_views(rest0).subrange(0, k as int);
                    assert(out@.len() == pre.len() + 1);
                    assert(clause_views(pre).len() == pre.len());
                    assert(clause_views(pre) == seq![first] + clause_views(rest0).subrange(
                        0,
                        k - 1,
                    ));
                    assert(pre.len() == k);
                    assert(clause_views(rest0).subrange(0, k as int).len() == k);
                    assert(clause_views(out@).len() == target.len());
                    assert forall|j: int| 0 <= j < clause_views(out@).len() implies clause_views(
                        out@,
                    )[j] == target[j] by {
                        if j < pre.len() {
                            assert(out@[j] == pre[j]);
                            assert(clause_views(pre)[j] == (seq![first] + clause_views(
                                rest0,
                            ).subrange(0, k - 1))[j]);
                        } else {
                            assert(clause_views(out@)[j] == item);
                            assert(target[j] == clause_views(rest0)[k - 1]);
                        }
                    }
                    assert(clause_views(out@) =~= target);
                }
            }
            proof {
                let cls = scan_pred(v@, i as int).unwrap();
                assert(clause_views(rest0).subrange(0, rest0.len() as int) =~= clause_views(
                    rest0,
                ));
                assert(clause_views(out@) =~= cls);
            }
            Some(out)
        },
        None => None,
    }
}

/// SQL `LIKE` matching of the pattern's tail against the text's tail.
pub fn like_exec(pat: &Vec<char>, pi: usize, txt: &Vec<char>, ti: usize) -> (r: bool)
    requires
        pi <= pat@.len(),
        ti <= txt@.len(),
    ensures
        r == like_at(pat@, pi as int, txt@, ti as int),
    decreases pat@.len() - pi, txt@.len() - ti,
{
    if pi == pat.len() {
        return ti == txt.len();
    }
    let p = pat[pi];
    if p == '%' {
        if like_exec(pat, pi + 1, txt, ti) {
            return true;
        }
        if ti < txt.len() {
            return like_exec(pat, pi, txt, ti + 1);
        }
        return false;
    }
    if ti == txt.len() {
        return false;
    }
    let t = txt[ti];
    let pl: char = lower_one(p);
    let tl: char = lower_one(t);
    if p == '_' || pl == tl {
        like_exec(pat, pi + 1, txt, ti + 1)
    } else {
        false
    }
}

fn lower_one(c: char) -> (r: char)
    ensures
        r == lower_char(c),
{
    if c == 'A' { 'a' } else if c == 'B' { 'b' } else if c == 'C' { 'c' }
    else if c == 'D' { 'd' } else if c == 'E' { 'e' } else if c == 'F' { 'f' }
    else if c == 'G' { 'g' } else if c == 'H' { 'h' } else if c == 'I' { 'i' }
    else if c == 'J' { 'j' } else if c == 'K' { 'k' } else if c == 'L' { 'l' }
    else if c == 'M' { 'm' } else if c == 'N' { 'n' } else if c == 'O' { 'o' }
    else if c == 'P' { 'p' } else if c == 'Q' { 'q' } else if c == 'R' { 'r' }
    else if c == 'S' { 's' } else if c == 'T' { 't' } else if c == 'U' { 'u' }
    else if c == 'V' { 'v' } else if c == 'W' { 'w' } else if c == 'X' { 'x' }
    else if c == 'Y' { 'y' } else if c == 'Z' { 'z' }
    else { c }
}

/// A comparison key and value that survive re-tokenisation: the key is
/// non-empty, neither side holds a `=` of its own — a `=` inside any
/// token makes it a key-value pair — and the key is not an operator
/// keyword.
pub open spec fn clean_clause(k: Seq<char>, v: Seq<char>) -> bool {
    &&& k.len() > 0
    &&& forall|j: int| 0 <= j < k.len() ==> k[j] != '='
    &&& forall|j: int| 0 <= j < v.len() ==> v[j] != '='
    &&& !is_operator(k)
}

/// From any parser state that does not expect a value, one comparison
/// written as the single token `key=value` takes the same step as the
/// three tokens `key`, `=`, `value` take together.
pub proof fn lemma_clause_forms(q: Seq<char>, k: Seq<char>, v: Seq<char>)
    requires
        clean_clause(k, v),
    ensures
        ({
            let a = step(q, false, k);
            let b = step(a.0, a.1, seq!['=']);
            let c = step(b.0, b.1, v);
            step(q, false, k + seq!['='] + v) == c && c.1 == false
        }),
{
    reveal_strlit("=");
    let combined = k + seq!['='] + v;

    // the combined token splits back into key and value
    assert(combined[k.len() as int] == '=');
    lemma_find_char_at(combined, '=', k.len() as int);
    let kv = kv_split(combined).unwrap();
    assert(kv.0 =~= k);
    assert(kv.1 =~= v);
    let one = q + seq![' '] + kv.0 + seq![' ', '=', ' '] + quoted(kv.1);
    assert(step(q, false, combined) == (one, false));

    // the three tokens emit the key, the operator, then the quoted value
    lemma_find_char_none(k, '=');
    assert(kv_split(k) is None);
    let q1 = q + seq![' '] + k;
    assert(step(q, false, k) == (q1, false));
    assert(seq!['='][0] == '=');
    assert(find_char(seq!['='], '=') == Some(0int));
    assert(kv_split(seq!['=']) is None);
    assert(lower_chars(seq!['=']) =~= "="@);
    assert(is_operator(seq!['=']));
    let q2 = q1 + seq![' '] + seq!['='];
    assert(step(q1, false, seq!['=']) == (q2, true));
    lemma_find_char_none(v, '=');
    assert(kv_split(v) is None);
    let q3 = q2 + seq![' '] + quoted(v);
    assert(step(q2, true, v) == (q3, false));
    assert(one =~= q3);
}

/// The token rendering of `and`-joined comparisons, each one a single
/// `key=value` token.
pub open spec fn combined_tokens(cls: Seq<(Seq<char>, Seq<char>)>) -> Seq<Seq<char>>
    decreases cls.len(),
{
    if cls.len() == 0 {
        Seq::empty()
    } else if cls.len() == 1 {
        seq![cls[0].0 + seq!['='] + cls[0].1]
    } else {
        seq![cls[0].0 + seq!['='] + cls[0].1, "and"@] + combined_tokens(cls.drop_first())
    }
}

/// The same comparisons, each written as the three tokens `key`, `=`,
/// `value`.
pub open spec fn split_tokens(cls: Seq<(Seq<char>, Seq<char>)>) -> Seq<Seq<char>>
    decreases cls.len(),
{
    if cls.len() == 0 {
        Seq::empty()
    } else if cls.len() == 1 {
        seq![cls[0].0, "="@, cls[0].1]
    } else {
        seq![cls[0].0, "="@, cls[0].1, "and"@] + split_tokens(cls.drop_first())
    }
}

pub open spec fn clean_clauses(cls: Seq<(Seq<char>, Seq<char>)>) -> bool {
    forall|i: int| 0 <= i < cls.len() ==> clean_clause((#[trigger] cls[i]).0, cls[i].1)
}

/// The connector word is an ordinary token: no key-value split, not an
/// operator.
proof fn lemma_and_token()
    ensures
        kv_split("and"@) is None,
        !is_operator("and"@),
        step("and"@.subrange(0, 0), false, "and"@).1 == false,
{
    reveal_strlit("and");
    reveal_strlit("=");
    reveal_strlit("!=");
    reveal_strlit("like");
    assert(forall|j: int| 0 <= j < "and"@.len() ==> "and"@[j] != '=');
    lemma_find_char_none("and"@, '=');
    assert(lower_chars("and"@) =~= "and"@);
}

/// Both renderings of a clause list run to the same query text from any
/// state that does not expect a value.
pub proof fn lemma_clause_list_equiv(q: Seq<char>, cls: Seq<(Seq<char>, Seq<char>)>)
    requires
        clean_clauses(cls),
    ensures
        run_tokens(q, false, combined_tokens(cls)) == run_tokens(q, false, split_tokens(cls)),
    decreases cls.len(),
{
    if cls.len() == 0 {
    } else {
        let k = cls[0].0;
        let v = cls[0].1;
        lemma_clause_forms(q, k, v);
        let a = step(q, false, k);
        let b = step(a.0, a.1, seq!['=']);
        let c = step(b.0, b.1, v);
        reveal_strlit("=");
        assert("="@ =~= seq!['=']);
        if cls.len() == 1 {
            let ct = combined_tokens(cls);
            assert(ct[0] == k + seq!['='] + v);
            assert(ct.drop_first() =~= Seq::<Seq<char>>::empty());
            assert(run_tokens(q, false, ct) == run_tokens(c.0, false, ct.drop_first()));
            assert(run_tokens(c.0, false, ct.drop_first()) == c.0);
            let st = split_tokens(cls);
            assert(st[0] == k);
            let st1 = st.drop_first();
            assert(st1 =~= seq![seq!['='], v]);
            assert(run_tokens(q, false, st) == run_tokens(a.0, a.1, st1));
            assert(st1[0] == seq!['=']);
            let st2 = st1.drop_first();
            assert(st2 =~= seq![v]);
            assert(run_tokens(a.0, a.1, st1) == run_tokens(b.0, b.1, st2));
            assert(st2[0] == v);
            let st3 = st2.drop_first();
            assert(st3 =~= Seq::<Seq<char>>::empty());
            assert(run_tokens(b.0, b.1, st2) == run_tokens(c.0, c.1, st3));
            assert(run_tokens(c.0, c.1, st3) == c.0);
        } else {
            lemma_and_token();
            let d = step(c.0, false, "and"@);
            assert(d.1 == false);
            let rest = cls.drop_first();
            assert(clean_clauses(rest)) by {
                assert(forall|i: int|
                    0 <= i < rest.len() ==> #[trigger] rest[i] == cls[i + 1]);
            }
            lemma_clause_list_equiv(d.0, rest);
            let ct = combined_tokens(cls);
            assert(ct[0] == k + seq!['='] + v);
            let ct1 = ct.drop_first();
            assert(ct1 =~= seq!["and"@] + combined_tokens(rest));
            assert(run_tokens(q, false, ct) == run_tokens(c.0, false, ct1));
            assert(ct1[0] == "and"@);
            let ct2 = ct1.drop_first();
            assert(ct2 =~= combined_tokens(rest));
            assert(run_tokens(c.0, false, ct1) == run_tokens(d.0, d.1, ct2));
            let st = split_tokens(cls);
            assert(st[0] == k);
            let st1 = st.drop_first();
            assert(st1 =~= seq![seq!['='], v, "and"@] + split_tokens(rest));
            assert(run_tokens(q, false, st) == run_tokens(a.0, a.1, st1));
            assert(st1[0] == seq!['=']);
            let st2 = st1.drop_first();
            assert(st2 =~= seq![v, "and"@] + split_tokens(rest));
            assert(run_tokens(a.0, a.1, st1) == run_tokens(b.0, b.1, st2));
            assert(st2[0] == v);
            let st3 = st2.drop_first();
            assert(st3 =~= seq!["and"@] + split_tokens(rest));
            assert(run_tokens(b.0, b.1, st2) == run_tokens(c.0, c.1, st3));
            assert(st3[0] == "and"@);
            let st4 = st3.drop_first();
            assert(st4 =~= split_tokens(rest));
            assert(run_tokens(c.0, c.1, st3) == run_tokens(d.0, d.1, st4));
        }
    }
}

/// Round trip for a whole filter: a query of `and`-joined comparisons
/// compiles to the same predicate whether each comparison is written as
/// one `key=value` token or as the three tokens `key`, `=`, `value`; so
/// re-parsing the user-visible form of an emitted predicate yields the
/// same predicate. Each key must be non-empty, neither keys nor values
/// may hold a `=` of their own, and no key is an operator keyword.
pub proof fn lemma_filter_round_trip_sequence(cls: Seq<(Seq<char>, Seq<char>)>)
    requires
        clean_clauses(cls),
    ensures
        spec_parse(seq!["where"@] + combined_tokens(cls)) == spec_parse(
            seq!["where"@] + split_tokens(cls),
        ),
{
    reveal_strlit("where");
    assert(lower_chars("where"@) =~= "where"@);
    assert((seq!["where"@] + combined_tokens(cls))[0] == "where"@);
    assert((seq!["where"@] + combined_tokens(cls)).drop_first() =~= combined_tokens(cls));
    assert((seq!["where"@] + split_tokens(cls))[0] == "where"@);
    assert((seq!["where"@] + split_tokens(cls)).drop_first() =~= split_tokens(cls));
    lemma_clause_list_equiv(Seq::empty(), cls);
}

} // verus!
