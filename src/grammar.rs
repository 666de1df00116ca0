//! The literal language: lexical rules, the table grammar, and the parser.
//!
//! Each `*_at` spec function says what the language reads at position `i` of
//! the input: the model of what was read and how many characters it took, or
//! `None` where the input does not match there.
use vstd::prelude::*;
use crate::number::{Decimal, Number, all_digits, copy_range, decimal_of, is_digit};
use crate::text::{chars_of, string_of, push_char};
use crate::value::{Table, Tree, Value, entries_view, key_view, lemma_object_tree};

verus! {

/// The classes of characters that make up runs in the language.
#[derive(Clone, Copy, Debug, PartialEq, Eq, Structural)]
pub enum CharClass {
    /// Space, tab, carriage return, line feed.
    Space,
    /// `0` to `9`.
    Digit,
    /// ASCII letters and `_`, the characters of a plain key.
    KeyChar,
}

pub open spec fn in_class(class: CharClass, c: char) -> bool {
    match class {
        CharClass::Space => c == ' ' || c == '\t' || c == '\n' || c == '\r',
        CharClass::Digit => '0' <= c && c <= '9',
        CharClass::KeyChar => ('a' <= c && c <= 'z') || ('A' <= c && c <= 'Z') || c == '_',
    }
}

/// The length of the longest run of characters of `class` from `i`.
pub open spec fn span(s: Seq<char>, i: int, class: CharClass) -> nat
    decreases s.len() - i,
{
    if 0 <= i < s.len() && in_class(class, s[i]) {
        1 + span(s, i + 1, class)
    } else {
        0
    }
}

/// A number: an optional `-`, digits, and optionally `.` and more digits.
pub open spec fn number_at(s: Seq<char>, i: int) -> Option<(Decimal, nat)> {
    let sign: nat = if 0 <= i < s.len() && s[i] == '-' { 1 } else { 0 };
    let a = i + sign;
    let w = span(s, a, CharClass::Digit);
    let p = a + w;
    let f = if 0 <= p < s.len() && s[p] == '.' { span(s, p + 1, CharClass::Digit) } else { 0 };
    if w == 0 {
        None
    } else if f == 0 {
        Some((decimal_of(sign == 1, s.subrange(a, p), Seq::empty()), sign + w))
    } else {
        Some((decimal_of(sign == 1, s.subrange(a, p), s.subrange(p + 1, p + 1 + f)), sign + w + 1 + f))
    }
}

/// The rest of a quoted string from `i`, up to and including its closing quote:
/// any character but a backslash, a line feed or a quote stands for itself,
/// and `\"` stands for a quote.
pub open spec fn string_body(s: Seq<char>, i: int) -> Option<(Seq<char>, nat)>
    decreases s.len() - i,
{
    if i < 0 || i >= s.len() {
        None
    } else if s[i] == '"' {
        Some((Seq::empty(), 1))
    } else if s[i] == '\n' {
        None
    } else if s[i] == '\\' {
        if i + 1 < s.len() && s[i + 1] == '"' {
            match string_body(s, i + 2) {
                Some((t, n)) => Some((seq!['"'] + t, n + 2)),
                None => None,
            }
        } else {
            None
        }
    } else {
        match string_body(s, i + 1) {
            Some((t, n)) => Some((seq![s[i]] + t, n + 1)),
            None => None,
        }
    }
}

/// A string in double quotes.
pub open spec fn quoted_at(s: Seq<char>, i: int) -> Option<(Seq<char>, nat)> {
    if 0 <= i < s.len() && s[i] == '"' {
        match string_body(s, i + 1) {
            Some((t, n)) => Some((t, n + 1)),
            None => None,
        }
    } else {
        None
    }
}

/// `true` or `false`.
pub open spec fn bool_at(s: Seq<char>, i: int) -> Option<(bool, nat)> {
    if 0 <= i && i + 4 <= s.len() && s[i] == 't' && s[i + 1] == 'r' && s[i + 2] == 'u' && s[i + 3]
        == 'e' {
        Some((true, 4))
    } else if 0 <= i && i + 5 <= s.len() && s[i] == 'f' && s[i + 1] == 'a' && s[i + 2] == 'l'
        && s[i + 3] == 's' && s[i + 4] == 'e' {
        Some((false, 5))
    } else {
        None
    }
}

/// An atom: a number, else a string, else a boolean.
pub open spec fn atom_at(s: Seq<char>, i: int) -> Option<(Tree, nat)> {
    match number_at(s, i) {
        Some((d, n)) => Some((Tree::Float(d), n)),
        None => match quoted_at(s, i) {
            Some((t, n)) => Some((Tree::String(t), n)),
            None => match bool_at(s, i) {
                Some((b, n)) => Some((Tree::Bool(b), n)),
                None => None,
            },
        },
    }
}

/// A key: a run of letters and `_`, else a quoted string in `[` `]`.
pub open spec fn key_at(s: Seq<char>, i: int) -> Option<(Seq<char>, nat)> {
    let k = span(s, i, CharClass::KeyChar);
    if k > 0 {
        Some((s.subrange(i, i + k), k))
    } else if 0 <= i < s.len() && s[i] == '[' {
        match quoted_at(s, i + 1) {
            Some((t, n)) => if i + 1 + n < s.len() && s[i + 1 + n] == ']' {
                Some((t, n + 2))
            } else {
                None
            },
            None => None,
        }
    } else {
        None
    }
}

/// A value: an atom, else a table.
pub open spec fn value_at(s: Seq<char>, i: int) -> Option<(Tree, nat)>
    decreases s.len() - i, 1nat,
{
    if i < 0 || i >= s.len() {
        None
    } else {
        match atom_at(s, i) {
            Some(a) => Some(a),
            None => table_at(s, i),
        }
    }
}

/// A table, with the white space around its braces: `{`, then `}` or the
/// entries, which end with the closing brace.
pub open spec fn table_at(s: Seq<char>, i: int) -> Option<(Tree, nat)>
    decreases s.len() - i, 0nat,
{
    if i < 0 || i >= s.len() {
        None
    } else {
        let w = span(s, i, CharClass::Space);
        let j = i + w;
        if j < s.len() && s[j] == '{' {
            let w2 = span(s, j + 1, CharClass::Space);
            let k = j + 1 + w2;
            if k < s.len() && s[k] == '}' {
                Some((Tree::Object(Seq::empty()), w + 1 + w2 + 1 + span(s, k + 1, CharClass::Space)))
            } else if k < s.len() {
                match entries_at(s, k) {
                    Some((es, n)) => Some((Tree::Object(es), w + 1 + w2 + n)),
                    None => None,
                }
            } else {
                None
            }
        } else {
            None
        }
    }
}

/// One or more entries separated by commas, an optional comma after the
/// last, then the closing brace and the white space after it.
pub open spec fn entries_at(s: Seq<char>, k: int) -> Option<(Seq<(Option<Seq<char>>, Tree)>, nat)>
    decreases s.len() - k, 3nat,
{
    if k < 0 || k >= s.len() {
        None
    } else {
        match entry_at(s, k) {
            None => None,
            Some((name, v, n)) => {
                let p = k + n;
                if p < s.len() && s[p] == '}' {
                    Some((seq![(name, v)], n + 1 + span(s, p + 1, CharClass::Space)))
                } else if p < s.len() && s[p] == ',' {
                    let w = span(s, p + 1, CharClass::Space);
                    let q = p + 1 + w;
                    if q < s.len() && s[q] == '}' {
                        Some((seq![(name, v)], n + 1 + w + 1 + span(s, q + 1, CharClass::Space)))
                    } else if q < s.len() {
                        match entries_at(s, q) {
                            Some((rest, m)) => Some((seq![(name, v)] + rest, n + 1 + w + m)),
                            None => None,
                        }
                    } else {
                        None
                    }
                } else {
                    None
                }
            },
        }
    }
}

/// An entry with the white space after it: a key, `=` and a value, else a
/// value alone.
pub open spec fn entry_at(s: Seq<char>, k: int) -> Option<(Option<Seq<char>>, Tree, nat)>
    decreases s.len() - k, 2nat,
{
    if k < 0 || k >= s.len() {
        None
    } else {
        let anonymous = match value_at(s, k) {
            Some((m, c)) => Some((None, m, c + span(s, k + c, CharClass::Space))),
            None => None,
        };
        match key_at(s, k) {
            Some((name, n)) => {
                let w1 = span(s, k + n, CharClass::Space);
                let e = k + n + w1;
                if e < s.len() && s[e] == '=' {
                    let w2 = span(s, e + 1, CharClass::Space);
                    let v = e + 1 + w2;
                    if v < s.len() {
                        match value_at(s, v) {
                            Some((m, c)) => Some(
                                (Some(name), m, n + w1 + 1 + w2 + c + span(s, v + c, CharClass::Space)),
                            ),
                            None => None,
                        }
                    } else {
                        None
                    }
                } else {
                    anonymous
                }
            },
            None => anonymous,
        }
    }
}

proof fn lemma_span_in_class(s: Seq<char>, i: int, class: CharClass)
    ensures
        forall|j: int| i <= j < i + span(s, i, class) ==> in_class(class, #[trigger] s[j]),
    decreases s.len() - i,
{
    if 0 <= i < s.len() && in_class(class, s[i]) {
        lemma_span_in_class(s, i + 1, class);
    }
}

fn is_in_class(class: CharClass, c: char) -> (r: bool)
    ensures
        r == in_class(class, c),
{
    match class {
        CharClass::Space => c == ' ' || c == '\t' || c == '\n' || c == '\r',
        CharClass::Digit => '0' <= c && c <= '9',
        CharClass::KeyChar => ('a' <= c && c <= 'z') || ('A' <= c && c <= 'Z') || c == '_',
    }
}

/// The end of the run of characters of `class` that starts at `i`.
fn skip(cs: &Vec<char>, i: usize, class: CharClass) -> (r: usize)
    requires
        i <= cs@.len(),
    ensures
        r == i + span(cs@, i as int, class),
        r <= cs@.len(),
{
    let mut j: usize = i;
    while j < cs.len() && is_in_class(class, cs[j])
        invariant
            i <= j <= cs@.len(),
            span(cs@, i as int, class) == (j - i) + span(cs@, j as int, class),
        decreases cs.len() - j,
    {
        j += 1;
    }
    j
}

fn lex_number(cs: &Vec<char>, i: usize) -> (r: Option<(Number, usize)>)
    requires
        i <= cs@.len(),
    ensures
        match number_at(cs@, i as int) {
            Some((d, n)) => r matches Some((x, e)) && x@ == d && e == i + n,
            None => r is None,
        },
        r matches Some((x, e)) ==> e <= cs@.len(),
{
    let negative = i < cs.len() && cs[i] == '-';
    let a: usize = if negative { i + 1 } else { i };
    let p = skip(cs, a, CharClass::Digit);
    if p == a {
        return None;
    }
    let whole = copy_range(cs, a, p);
    proof {
        lemma_span_in_class(cs@, a as int, CharClass::Digit);
        assert(all_digits(whole@)) by {
            assert forall|j: int| 0 <= j < whole@.len() implies is_digit(#[trigger] whole@[j]) by {
                assert(whole@[j] == cs@[a + j]);
            }
        }
    }
    if p < cs.len() && cs[p] == '.' {
        let q = skip(cs, p + 1, CharClass::Digit);
        if q > p + 1 {
            let frac = copy_range(cs, p + 1, q);
            proof {
                lemma_span_in_class(cs@, p + 1, CharClass::Digit);
                assert(all_digits(frac@)) by {
                    assert forall|j: int| 0 <= j < frac@.len() implies is_digit(#[trigger] frac@[j]) by {
                        assert(frac@[j] == cs@[p + 1 + j]);
                    }
                }
            }
            return Some((Number::from_digits(negative, &whole, &frac), q));
        }
    }
    let frac: Vec<char> = Vec::new();
    assert(frac@ =~= Seq::<char>::empty());
    Some((Number::from_digits(negative, &whole, &frac), p))
}

fn lex_quoted(cs: &Vec<char>, i: usize) -> (r: Option<(String, usize)>)
    requires
        i <= cs@.len(),
    ensures
        match quoted_at(cs@, i as int) {
            Some((t, n)) => r matches Some((x, e)) && x@ == t && e == i + n,
            None => r is None,
        },
        r matches Some((x, e)) ==> e <= cs@.len(),
{
    if !(i < cs.len() && cs[i] == '"') {
        return None;
    }
    let ghost s = cs@;
    let ghost start = i + 1;
    let mut acc = String::new();
    let mut j: usize = i + 1;
    while j < cs.len()
        invariant
            start <= j <= s.len(),
            s == cs@,
            start == i + 1,
            i < s.len() && s[i as int] == '"',
            match string_body(s, j as int) {
                Some((t, n)) => string_body(s, start as int) == Some((acc@ + t, ((j - start) + n) as nat)),
                None => string_body(s, start as int) is None,
            },
        decreases cs.len() - j,
    {
        let c = cs[j];
        if c == '"' {
            assert(acc@ + Seq::<char>::empty() =~= acc@);
            return Some((acc, j + 1));
        } else if c == '\n' {
            return None;
        } else if c == '\\' {
            if j + 1 < cs.len() && cs[j + 1] == '"' {
                proof {
                    if let Some((t, n)) = string_body(s, j + 2) {
                        assert(acc@ + (seq!['"'] + t) =~= acc@.push('"') + t);
                    }
                }
                push_char(&mut acc, '"');
                j += 2;
            } else {
                return None;
            }
        } else {
            proof {
                if let Some((t, n)) = string_body(s, j + 1) {
                    assert(acc@ + (seq![c] + t) =~= acc@.push(c) + t);
                }
            }
            push_char(&mut acc, c);
            j += 1;
        }
    }
    None
}

fn lex_bool(cs: &Vec<char>, i: usize) -> (r: Option<(bool, usize)>)
    requires
        i <= cs@.len(),
    ensures
        match bool_at(cs@, i as int) {
            Some((b, n)) => r matches Some((x, e)) && x == b && e == i + n,
            None => r is None,
        },
        r matches Some((x, e)) ==> e <= cs@.len(),
{
    let n = cs.len();
    if n - i >= 4 && cs[i] == 't' && cs[i + 1] == 'r' && cs[i + 2] == 'u' && cs[i + 3] == 'e' {
        Some((true, i + 4))
    } else if n - i >= 5 && cs[i] == 'f' && cs[i + 1] == 'a' && cs[i + 2] == 'l' && cs[i + 3] == 's'
        && cs[i + 4] == 'e' {
        Some((false, i + 5))
    } else {
        None
    }
}

fn lex_atom(cs: &Vec<char>, i: usize) -> (r: Option<(Value, usize)>)
    requires
        i <= cs@.len(),
    ensures
        match atom_at(cs@, i as int) {
            Some((m, n)) => r matches Some((x, e)) && x.tree() == m && e == i + n,
            None => r is None,
        },
        r matches Some((x, e)) ==> e <= cs@.len(),
{
    if let Some((d, e)) = lex_number(cs, i) {
        return Some((Value::Float(d), e));
    }
    if let Some((t, e)) = lex_quoted(cs, i) {
        return Some((Value::String(t), e));
    }
    if let Some((b, e)) = lex_bool(cs, i) {
        return Some((Value::Bool(b), e));
    }
    None
}

fn lex_key(cs: &Vec<char>, i: usize) -> (r: Option<(String, usize)>)
    requires
        i <= cs@.len(),
    ensures
        match key_at(cs@, i as int) {
            Some((t, n)) => r matches Some((x, e)) && x@ == t && e == i + n,
            None => r is None,
        },
        r matches Some((x, e)) ==> e <= cs@.len(),
{
    let k = skip(cs, i, CharClass::KeyChar);
    if k > i {
        return Some((string_of(cs, i, k), k));
    }
    if i < cs.len() && cs[i] == '[' {
        if let Some((t, e)) = lex_quoted(cs, i + 1) {
            if e < cs.len() && cs[e] == ']' {
                return Some((t, e + 1));
            }
        }
    }
    None
}

fn parse_value(cs: &Vec<char>, i: usize) -> (r: Option<(Value, usize)>)
    requires
        i <= cs@.len(),
    ensures
        match value_at(cs@, i as int) {
            Some((m, n)) => r matches Some((x, e)) && x.tree() == m && e == i + n,
            None => r is None,
        },
        r matches Some((x, e)) ==> e <= cs@.len(),
    decreases cs@.len() - i, 1nat,
{
    if i >= cs.len() {
        return None;
    }
    if let Some(a) = lex_atom(cs, i) {
        return Some(a);
    }
    parse_table(cs, i)
}

fn parse_table(cs: &Vec<char>, i: usize) -> (r: Option<(Value, usize)>)
    requires
        i <= cs@.len(),
    ensures
        match table_at(cs@, i as int) {
            Some((m, n)) => r matches Some((x, e)) && x.tree() == m && e == i + n,
            None => r is None,
        },
        r matches Some((x, e)) ==> e <= cs@.len(),
    decreases cs@.len() - i, 0nat,
{
    if i >= cs.len() {
        return None;
    }
    let j = skip(cs, i, CharClass::Space);
    if !(j < cs.len() && cs[j] == '{') {
        return None;
    }
    let k = skip(cs, j + 1, CharClass::Space);
    if k < cs.len() && cs[k] == '}' {
        let e = skip(cs, k + 1, CharClass::Space);
        let t: Table = Vec::new();
        proof {
            lemma_object_tree(t);
            assert(entries_view(t@) =~= Seq::empty());
        }
        Some((Value::Object(t), e))
    } else if k < cs.len() {
        match parse_entries(cs, k) {
            Some((t, e)) => {
                proof {
                    lemma_object_tree(t);
                }
                Some((Value::Object(t), e))
            },
            None => None,
        }
    } else {
        None
    }
}

fn parse_entries(cs: &Vec<char>, k0: usize) -> (r: Option<(Table, usize)>)
    requires
        k0 < cs@.len(),
    ensures
        match entries_at(cs@, k0 as int) {
            Some((es, n)) => r matches Some((t, e)) && entries_view(t@) == es && e == k0 + n,
            None => r is None,
        },
        r matches Some((x, e)) ==> e <= cs@.len(),
    decreases cs@.len() - k0, 3nat,
{
    let ghost s = cs@;
    let mut acc: Table = Vec::new();
    let mut k: usize = k0;
    assert(entries_view(acc@) + Seq::empty() =~= Seq::empty());
    assert(entries_view(acc@) =~= Seq::empty());
    loop
        invariant
            s == cs@,
            k0 <= k < s.len(),
            match entries_at(s, k as int) {
                Some((rest, m)) => entries_at(s, k0 as int) == Some(
                    (entries_view(acc@) + rest, ((k - k0) + m) as nat),
                ),
                None => entries_at(s, k0 as int) is None,
            },
        decreases s.len() - k,
    {
        let ghost before = acc@;
        match parse_entry(cs, k) {
            None => {
                return None;
            },
            Some((name, v, p)) => {
                acc.push((name, v));
                let ghost one = seq![(key_view(acc@.last().0), acc@.last().1.tree())];
                assert(entries_view(acc@) =~= entries_view(before) + one);
                if p < cs.len() && cs[p] == '}' {
                    let e = skip(cs, p + 1, CharClass::Space);
                    return Some((acc, e));
                } else if p < cs.len() && cs[p] == ',' {
                    let q = skip(cs, p + 1, CharClass::Space);
                    if q < cs.len() && cs[q] == '}' {
                        let e = skip(cs, q + 1, CharClass::Space);
                        return Some((acc, e));
                    } else if q < cs.len() {
                        proof {
                            if let Some((rest, m)) = entries_at(s, q as int) {
                                assert(entries_view(before) + (one + rest) =~= entries_view(acc@)
                                    + rest);
                            }
                        }
                        k = q;
                    } else {
                        return None;
                    }
                } else {
                    return None;
                }
            },
        }
    }
}

fn parse_entry(cs: &Vec<char>, k: usize) -> (r: Option<(Option<String>, Value, usize)>)
    requires
        k <= cs@.len(),
    ensures
        match entry_at(cs@, k as int) {
            Some((name, m, n)) => r matches Some((x, v, e)) && key_view(x) == name && v.tree() == m
                && e == k + n,
            None => r is None,
        },
        r matches Some((x, v, e)) ==> e <= cs@.len(),
    decreases cs@.len() - k, 2nat,
{
    if k >= cs.len() {
        return None;
    }
    if let Some((name, n)) = lex_key(cs, k) {
        let e = skip(cs, n, CharClass::Space);
        if e < cs.len() && cs[e] == '=' {
            let v = skip(cs, e + 1, CharClass::Space);
            if v >= cs.len() {
                return None;
            }
            return match parse_value(cs, v) {
                Some((m, c)) => {
                    let end = skip(cs, c, CharClass::Space);
                    Some((Some(name), m, end))
                },
                None => None,
            };
        }
    }
    match parse_value(cs, k) {
        Some((m, c)) => {
            let end = skip(cs, c, CharClass::Space);
            Some((None, m, end))
        },
        None => None,
    }
}

/// Why a text is not a well-formed table.
#[derive(Clone, Debug, PartialEq)]
pub enum ParseError {
    /// The text does not match the grammar.
    Syntax,
    /// The text holds a value, but not a table.
    NotATable,
    /// A table was read, and this text follows it.
    TrailingData(String),
}


/// What parsing a text comes to: the entries of its table, or why it fails.
pub enum Parsed {
    Table(Seq<(Option<Seq<char>>, Tree)>),
    Syntax,
    NotATable,
    TrailingData(Seq<char>),
}

/// What parsing `s` comes to: `s` must hold one table and nothing after it.
pub open spec fn parsed(s: Seq<char>) -> Parsed {
    match value_at(s, 0) {
        None => Parsed::Syntax,
        Some((Tree::Object(es), n)) => if n == s.len() {
            Parsed::Table(es)
        } else {
            Parsed::TrailingData(s.subrange(n as int, s.len() as int))
        },
        Some(_) => Parsed::NotATable,
    }
}

/// The model of a result of `parse`.
pub open spec fn outcome(r: Result<Table, ParseError>) -> Parsed {
    match r {
        Ok(t) => Parsed::Table(entries_view(t@)),
        Err(ParseError::Syntax) => Parsed::Syntax,
        Err(ParseError::NotATable) => Parsed::NotATable,
        Err(ParseError::TrailingData(rest)) => Parsed::TrailingData(rest@),
    }
}

/// Parses `s`, which must hold exactly one table, with white space around it.
pub fn parse(s: &str) -> (r: Result<Table, ParseError>)
    ensures
        outcome(r) == parsed(s@),
{
    let cs = chars_of(s);
    match parse_value(&cs, 0) {
        None => Err(ParseError::Syntax),
        Some((Value::Object(t), e)) => {
            proof {
                lemma_object_tree(t);
            }
            if e == cs.len() {
                Ok(t)
            } else {
                Err(ParseError::TrailingData(string_of(&cs, e, cs.len())))
            }
        },
        Some(_) => Err(ParseError::NotATable),
    }
}

/// Reads a quoted string at the start of `s`: the string read, and the text
/// after its closing quote.
pub fn string(s: &str) -> (r: Result<(String, Value), ParseError>)
    ensures
        match quoted_at(s@, 0) {
            Some((t, n)) => r matches Ok((rest, v)) && v.tree() == Tree::String(t) && rest@
                == s@.subrange(n as int, s@.len() as int),
            None => r == Err::<(String, Value), ParseError>(ParseError::Syntax),
        },
{
    let cs = chars_of(s);
    match lex_quoted(&cs, 0) {
        Some((t, e)) => Ok((string_of(&cs, e, cs.len()), Value::String(t))),
        None => Err(ParseError::Syntax),
    }
}

} // verus!
