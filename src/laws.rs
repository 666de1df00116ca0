//! Properties of the language and of the accessors that hold for all inputs.
use vstd::prelude::*;
use crate::grammar::{ParseError, outcome, parsed, quoted_at, string_body};
use crate::value::{Table, Tree, lookup};

verus! {

/// The written form of the text `t` inside quotes: each quote is preceded by
/// a backslash.
pub open spec fn escape(t: Seq<char>) -> Seq<char>
    decreases t.len(),
{
    if t.len() == 0 {
        Seq::empty()
    } else {
        (if t[0] == '"' { seq!['\\', '"'] } else { seq![t[0]] }) + escape(t.drop_first())
    }
}

/// Text that can be written in quotes: it holds no backslash and no line feed.
pub open spec fn quotable(t: Seq<char>) -> bool {
    forall|i: int| 0 <= i < t.len() ==> #[trigger] t[i] != '\\' && t[i] != '\n'
}

proof fn lemma_body_of_escaped(s: Seq<char>, i: int, t: Seq<char>)
    requires
        quotable(t),
        0 <= i,
        i + escape(t).len() + 1 <= s.len(),
        s.subrange(i, i + escape(t).len() + 1) == escape(t) + seq!['"'],
    ensures
        string_body(s, i) == Some((t, escape(t).len() + 1)),
    decreases t.len(),
{
    let w = escape(t) + seq!['"'];
    assert(s[i] == w[0]) by {
        assert(s.subrange(i, i + escape(t).len() + 1)[0] == s[i]);
    }
    if t.len() == 0 {
        assert(escape(t) =~= Seq::<char>::empty());
    } else {
        let u = t.drop_first();
        assert(quotable(u)) by {
            assert forall|j: int| 0 <= j < u.len() implies #[trigger] u[j] != '\\' && u[j]
                != '\n' by {
                assert(u[j] == t[j + 1]);
            }
        }
        assert(t[0] != '\\' && t[0] != '\n');
        let h: nat = if t[0] == '"' { 2 } else { 1 };
        assert(escape(t).len() == h + escape(u).len());
        assert(s.subrange(i + h, i + h + escape(u).len() + 1) =~= escape(u) + seq!['"']) by {
            assert forall|j: int| 0 <= j < escape(u).len() + 1 implies #[trigger] s.subrange(
                i + h,
                i + h + escape(u).len() + 1,
            )[j] == (escape(u) + seq!['"'])[j] by {
                assert(s.subrange(i, i + escape(t).len() + 1)[h + j] == s[i + h + j]);
                assert(w[h + j] == (escape(u) + seq!['"'])[j]);
            }
        }
        lemma_body_of_escaped(s, i + h, u);
        if t[0] == '"' {
            assert(s[i + 1] == w[1]) by {
                assert(s.subrange(i, i + escape(t).len() + 1)[1] == s[i + 1]);
            }
            assert(seq!['"'] + u =~= t);
        } else {
            assert(seq![t[0]] + u =~= t);
        }
    }
}

/// A text written in quotes, with each of its quotes escaped, reads back as
/// that text, whatever follows the closing quote.
pub proof fn lemma_escaped_string(t: Seq<char>, rest: Seq<char>)
    requires
        quotable(t),
    ensures
        quoted_at(seq!['"'] + escape(t) + seq!['"'] + rest, 0) == Some((t, escape(t).len() + 2)),
{
    let s = seq!['"'] + escape(t) + seq!['"'] + rest;
    assert(s.subrange(1, 1 + escape(t).len() as int + 1) =~= escape(t) + seq!['"']);
    lemma_body_of_escaped(s, 1, t);
}

/// Parsing is deterministic: two results of parsing one text are equal in
/// what they hold.
pub proof fn lemma_parse_deterministic(
    s: Seq<char>,
    r1: Result<Table, ParseError>,
    r2: Result<Table, ParseError>,
)
    requires
        outcome(r1) == parsed(s),
        outcome(r2) == parsed(s),
    ensures
        outcome(r1) == outcome(r2),
{
}

/// Lookup by name finds the first entry with that name, and fails exactly
/// when no entry has it.
pub proof fn lemma_lookup(es: Seq<(Option<Seq<char>>, Tree)>, key: Seq<char>)
    ensures
        lookup(es, key) is None <==> forall|i: int| 0 <= i < es.len() ==> #[trigger] es[i].0 != Some(
            key,
        ),
        forall|i: int|
            0 <= i < es.len() && #[trigger] es[i].0 == Some(key) && (forall|j: int|
                0 <= j < i ==> es[j].0 != Some(key)) ==> lookup(es, key) == Some(es[i].1),
    decreases es.len(),
{
    if es.len() > 0 {
        let tail = es.drop_first();
        lemma_lookup(tail, key);
        assert forall|i: int| 0 < i < es.len() implies es[i] == #[trigger] tail[i - 1] by {}
        if es[0].0 != Some(key) {
            assert forall|i: int| 0 <= i < es.len() && #[trigger] es[i].0 == Some(key) && (forall|
                j: int,
            | 0 <= j < i ==> es[j].0 != Some(key)) implies lookup(es, key) == Some(es[i].1) by {
                assert(tail[i - 1].0 == Some(key));
                assert forall|j: int| 0 <= j < i - 1 implies tail[j].0 != Some(key) by {
                    assert(tail[j] == es[j + 1]);
                }
            }
            if lookup(es, key) is None {
                assert forall|i: int| 0 <= i < es.len() implies #[trigger] es[i].0 != Some(key) by {
                    if i > 0 {
                        assert(tail[i - 1] == es[i]);
                    }
                }
            }
        }
    }
}

} // verus!
