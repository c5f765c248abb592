//! Textual forms of values: decimal numbers and the compact JSON text used
//! for keys that are neither integers nor strings.
use vstd::prelude::*;
use crate::value::{Doc, Entries, Number, Value, entries_view, lemma_view_entries};

verus! {

broadcast use vstd::std_specs::vec::axiom_vec_index_decreases, vstd::seq::axiom_seq_index_decreases;

/// The character of a decimal digit.
pub open spec fn digit(d: nat) -> char {
    if d == 0 { '0' }
    else if d == 1 { '1' }
    else if d == 2 { '2' }
    else if d == 3 { '3' }
    else if d == 4 { '4' }
    else if d == 5 { '5' }
    else if d == 6 { '6' }
    else if d == 7 { '7' }
    else if d == 8 { '8' }
    else { '9' }
}

/// The canonical decimal text of `n`: no sign, no leading zeros.
pub open spec fn dec(n: nat) -> Seq<char>
    decreases n,
{
    if n < 10 {
        seq![digit(n)]
    } else {
        dec(n / 10).push(digit(n % 10))
    }
}

/// The JSON string literal for `s`, quoted and escaped.
pub uninterp spec fn json_quoted(s: Seq<char>) -> Seq<char>;

/// Relies on serde_json::to_string on a `str`: it writes the quoted, escaped
/// literal into a `Vec`, which cannot fail.
#[verifier::external_body]
fn quote(s: &str) -> (r: String)
    ensures
        r@ == json_quoted(s@),
{
    serde_json::to_string(s).unwrap_or_default()
}

/// The characters of a string literal, for use in specifications.
pub open spec fn lit_null() -> Seq<char> { seq!['n', 'u', 'l', 'l'] }
pub open spec fn lit_true() -> Seq<char> { seq!['t', 'r', 'u', 'e'] }
pub open spec fn lit_false() -> Seq<char> { seq!['f', 'a', 'l', 's', 'e'] }

/// The compact JSON text of a value, entries in table order. A float has no
/// text here, and neither has anything that holds one.
pub open spec fn json_of(d: Doc) -> Option<Seq<char>>
    decreases d,
{
    match d {
        Doc::Null => Some(lit_null()),
        Doc::Bool(b) => Some(if b { lit_true() } else { lit_false() }),
        Doc::Number(Number::UInt(n)) => Some(dec(n as nat)),
        Doc::Number(Number::Float(_)) => None,
        Doc::Str(s) => Some(json_quoted(s)),
        Doc::Table(es) => match json_members(es, es.len() as int) {
            Some(m) => Some(seq!['{'] + m + seq!['}']),
            None => None,
        },
    }
}

/// The JSON text of the first `n` entries of a table, separated by commas.
pub open spec fn json_members(es: Entries, n: int) -> Option<Seq<char>>
    decreases es, n,
{
    if n <= 0 || n > es.len() {
        Some(Seq::empty())
    } else {
        match (json_members(es, n - 1), json_of(es[n - 1].1)) {
            (Some(m), Some(v)) => Some(
                (if n == 1 { m } else { m.push(',') }) + json_quoted(es[n - 1].0) + seq![':'] + v,
            ),
            _ => None,
        }
    }
}

fn digit_str(d: u64) -> (r: &'static str)
    requires
        d < 10,
    ensures
        r@ == seq![digit(d as nat)],
{
    if d == 0 { proof { reveal_strlit("0"); } "0" }
    else if d == 1 { proof { reveal_strlit("1"); } "1" }
    else if d == 2 { proof { reveal_strlit("2"); } "2" }
    else if d == 3 { proof { reveal_strlit("3"); } "3" }
    else if d == 4 { proof { reveal_strlit("4"); } "4" }
    else if d == 5 { proof { reveal_strlit("5"); } "5" }
    else if d == 6 { proof { reveal_strlit("6"); } "6" }
    else if d == 7 { proof { reveal_strlit("7"); } "7" }
    else if d == 8 { proof { reveal_strlit("8"); } "8" }
    else { proof { reveal_strlit("9"); } "9" }
}

/// The canonical decimal text of `n`.
pub fn decimal(n: u64) -> (r: String)
    ensures
        r@ == dec(n as nat),
    decreases n,
{
    if n < 10 {
        let mut s = String::new();
        s.append(digit_str(n));
        proof { assert(s@ =~= seq![digit(n as nat)]); }
        s
    } else {
        let mut s = decimal(n / 10);
        s.append(digit_str(n % 10));
        s
    }
}

/// The compact JSON text of a value, or `None` where it holds a float.
pub fn json_text(v: &Value) -> (r: Option<String>)
    ensures
        match json_of(v@) {
            Some(t) => r is Some && r->0@ == t,
            None => r is None,
        },
    decreases v,
{
    match v {
        Value::Null => {
            proof { reveal_strlit("null"); }
            Some(String::from_str("null"))
        },
        Value::Bool(b) => {
            proof { reveal_strlit("true"); reveal_strlit("false"); }
            Some(String::from_str(if *b { "true" } else { "false" }))
        },
        Value::Number(Number::UInt(n)) => Some(decimal(*n)),
        Value::Number(Number::Float(_)) => None,
        Value::String(s) => Some(quote(s.as_str())),
        Value::Table(es) => {
            let ghost t = entries_view(es);
            proof { lemma_view_entries(es, es.len() as int); }
            let mut acc = String::new();
            let mut i: usize = 0;
            while i < es.len()
                invariant
                    0 <= i <= es.len(),
                    t == entries_view(es),
                    t.len() == es.len(),
                    forall|j: int| 0 <= j < es.len() ==> #[trigger] t[j] == (es[j].0@, es[j].1@),
                    json_members(t, i as int) == Some(acc@),
                    v@ == Doc::Table(t),
                    *v == Value::Table(*es),
                decreases es.len() - i,
            {
                proof {
                    assert(decreases_to!(es => es[i as int]));
                }
                let part = json_text(&es[i].1);
                match part {
                    None => {
                        proof {
                            assert(t[i as int].1 == es[i as int].1@);
                            assert(json_members(t, i + 1) is None);
                            lemma_members_none(t, i + 1);
                        }
                        return None;
                    },
                    Some(p) => {
                        if i > 0 {
                            acc.append(",");
                        }
                        let k = quote(es[i].0.as_str());
                        acc.append(k.as_str());
                        acc.append(":");
                        acc.append(p.as_str());
                        proof {
                            reveal_strlit(",");
                            reveal_strlit(":");
                            assert(t[i as int].1 == es[i as int].1@);
                            assert(t[i as int].0 == es[i as int].0@);
                            assert(json_members(t, i + 1) == Some(acc@));
                        }
                    },
                }
                i = i + 1;
            }
            let mut r = String::from_str("{");
            r.append(acc.as_str());
            r.append("}");
            proof {
                reveal_strlit("{");
                reveal_strlit("}");
                assert(r@ =~= seq!['{'] + acc@ + seq!['}']);
            }
            Some(r)
        },
    }
}

/// Once a prefix of the members has no text, no longer prefix has.
pub proof fn lemma_members_none(es: Entries, n: int)
    requires
        0 <= n <= es.len(),
        json_members(es, n) is None,
    ensures
        json_members(es, es.len() as int) is None,
    decreases es.len() - n,
{
    if n < es.len() {
        lemma_members_none(es, n + 1);
    }
}

} // verus!
