//! The two small languages in which a choice states its conditions and its
//! changes.
//!
//! Conditions are clauses joined by `&&`; each clause compares a variable
//! with a decimal literal. Changes are clauses joined by `;`; each clause
//! assigns a decimal literal to a variable, or adds one to it.

use vstd::prelude::*;
use crate::decimal::literal::parsed;
use crate::decimal::{clamp, Decimal};
use crate::model::{Change, ChangeKind, ChangeView, Condition, ConditionKind, ConditionView};
use crate::text::{
    bounds_pieces, chars_of, cut_at_each, drop_spaces, find_char, find_pair, first_at,
    lemma_first_at, lemma_first_exists, lemma_first_is_place, occurs_at, skip_spaces, split, trim,
    trim_end, trim_start,
};

verus! {

/// A comparison sign found in a clause: the kind of comparison, the place of
/// the sign, and its length.
pub struct Sign {
    pub kind: ConditionKind,
    pub at: int,
    pub len: int,
}

/// The comparison sign of a clause.
///
/// The signs are looked for in the order `<=`, `<`, `>=`, `>`, `!=`, `==`,
/// each anywhere in the clause, and the first sign that is found counts, at
/// the first place at which it stands. A sign of two characters is thus never
/// taken for the sign that is its first character.
pub open spec fn sign(s: Seq<char>) -> Option<Sign> {
    if let Some(at) = first_at(s, seq!['<', '=']) {
        Some(Sign { kind: ConditionKind::LessEqual, at, len: 2 })
    } else if let Some(at) = first_at(s, seq!['<']) {
        Some(Sign { kind: ConditionKind::Less, at, len: 1 })
    } else if let Some(at) = first_at(s, seq!['>', '=']) {
        Some(Sign { kind: ConditionKind::GreaterEqual, at, len: 2 })
    } else if let Some(at) = first_at(s, seq!['>']) {
        Some(Sign { kind: ConditionKind::Greater, at, len: 1 })
    } else if let Some(at) = first_at(s, seq!['!', '=']) {
        Some(Sign { kind: ConditionKind::NotEqual, at, len: 2 })
    } else if let Some(at) = first_at(s, seq!['=', '=']) {
        Some(Sign { kind: ConditionKind::Equal, at, len: 2 })
    } else {
        None
    }
}

/// The condition that a clause states: the id before the sign, the kind of
/// the sign, and the decimal literal behind it. White space round the clause
/// and round the sign does not count.
pub open spec fn condition(clause: Seq<char>) -> Option<ConditionView> {
    let s = trim(clause);
    match sign(s) {
        None => None,
        Some(sign) => match parsed(trim_start(s.subrange(sign.at + sign.len, s.len() as int))) {
            None => None,
            Some(value) => Some(
                ConditionView { kind: sign.kind, id: trim_end(s.subrange(0, sign.at)), value },
            ),
        },
    }
}

/// What the pieces are read as, if every one of them can be read.
pub open spec fn each<T>(pieces: Seq<Seq<char>>, read: spec_fn(Seq<char>) -> Option<T>) -> Option<
    Seq<T>,
> {
    if forall|i: int| 0 <= i < pieces.len() ==> read(#[trigger] pieces[i]) is Some {
        Some(pieces.map_values(|piece: Seq<char>| read(piece)->0))
    } else {
        None
    }
}

/// The conditions that a text states: none where it is blank, else one for
/// each of the clauses that `&&` parts. Nothing where a clause states none.
pub open spec fn conditions(s: Seq<char>) -> Option<Seq<ConditionView>> {
    if trim(s).len() == 0 {
        Some(Seq::empty())
    } else {
        each(split(s, seq!['&', '&']), |clause: Seq<char>| condition(clause))
    }
}

/// The amount of an increment: what `expr` adds to the variable `id`, where
/// it has the form of `id`, a sign `+` or `-`, and a decimal literal.
pub open spec fn increment(id: Seq<char>, expr: Seq<char>) -> Option<int> {
    if id.is_prefix_of(expr) {
        let rest = trim_start(expr.subrange(id.len() as int, expr.len() as int));
        if rest.len() > 0 && rest[0] == '+' {
            parsed(rest.drop_first())
        } else if rest.len() > 0 && rest[0] == '-' {
            match parsed(rest.drop_first()) {
                Some(v) => Some(clamp(-v)),
                None => None,
            }
        } else {
            None
        }
    } else {
        None
    }
}

/// The change that a clause states. The clause is cut at its first `=` into
/// an id and an expression, white space round either not counting. An
/// expression that is an increment of the id adds; else one that is a decimal
/// literal assigns.
pub open spec fn change(clause: Seq<char>) -> Option<ChangeView> {
    match first_at(clause, seq!['=']) {
        None => None,
        Some(at) => {
            let id = trim(clause.subrange(0, at));
            let expr = trim(clause.subrange(at + 1, clause.len() as int));
            match increment(id, expr) {
                Some(value) => Some(ChangeView { kind: ChangeKind::Add, id, value }),
                None => match parsed(expr) {
                    Some(value) => Some(ChangeView { kind: ChangeKind::Assign, id, value }),
                    None => None,
                },
            }
        },
    }
}

/// The changes that a text states: none where it is blank, else one for each
/// of the clauses that `;` parts. Nothing where a clause states none.
pub open spec fn changes(s: Seq<char>) -> Option<Seq<ChangeView>> {
    if trim(s).len() == 0 {
        Some(Seq::empty())
    } else {
        each(split(s, seq![';']), |clause: Seq<char>| change(clause))
    }
}

/// A sign of two characters is never taken for the sign that is its first
/// character: a clause in which `<=` stands is read as less-or-equal, one
/// that is read as less holds no `<=`, and one that is read as greater holds
/// no `>=`.
pub proof fn theorem_longest_sign(s: Seq<char>)
    ensures
        (exists|i: int| occurs_at(s, seq!['<', '='], i)) ==> (sign(s) matches Some(found)
            && found.kind == ConditionKind::LessEqual),
        sign(s) matches Some(found) ==> {
            &&& found.kind == ConditionKind::Less ==> forall|i: int|
                !occurs_at(s, seq!['<', '='], i)
            &&& found.kind == ConditionKind::Greater ==> forall|i: int|
                !occurs_at(s, seq!['>', '='], i)
            &&& occurs_at(
                s,
                match found.kind {
                    ConditionKind::LessEqual => seq!['<', '='],
                    ConditionKind::Less => seq!['<'],
                    ConditionKind::GreaterEqual => seq!['>', '='],
                    ConditionKind::Greater => seq!['>'],
                    ConditionKind::NotEqual => seq!['!', '='],
                    ConditionKind::Equal => seq!['=', '='],
                },
                found.at,
            )
        },
{
    assert forall|i: int| occurs_at(s, seq!['<', '='], i) implies first_at(s, seq!['<', '=']) is Some by {
        lemma_first_exists(s, seq!['<', '='], i);
    }
    assert forall|i: int| occurs_at(s, seq!['>', '='], i) implies first_at(s, seq!['>', '=']) is Some by {
        lemma_first_exists(s, seq!['>', '='], i);
    }
    lemma_first_is_place(s, seq!['<', '=']);
    lemma_first_is_place(s, seq!['<']);
    lemma_first_is_place(s, seq!['>', '=']);
    lemma_first_is_place(s, seq!['>']);
    lemma_first_is_place(s, seq!['!', '=']);
    lemma_first_is_place(s, seq!['=', '=']);
}

/// The bounds of `text[lo..hi]` without the white space round it.
fn trim_range(text: &Vec<char>, lo: usize, hi: usize) -> (r: (usize, usize))
    requires
        lo <= hi <= text.len(),
    ensures
        lo <= r.0 <= r.1 <= hi,
        text@.subrange(r.0 as int, r.1 as int) == trim(text@.subrange(lo as int, hi as int)),
{
    let from = skip_spaces(text, lo, hi);
    let to = drop_spaces(text, from, hi);
    (from, to)
}

/// The comparison sign of `text[lo..hi]`: its kind, its place and its length.
fn find_sign(text: &Vec<char>, lo: usize, hi: usize) -> (r: Option<(ConditionKind, usize, usize)>)
    requires
        lo <= hi <= text.len(),
    ensures
        match sign(text@.subrange(lo as int, hi as int)) {
            Some(sign) => r matches Some((kind, at, len)) && kind == sign.kind && at - lo == sign.at
                && len == sign.len && lo <= at && at + len <= hi && 1 <= len <= 2,
            None => r is None,
        },
{
    let ghost s = text@.subrange(lo as int, hi as int);
    if let Some(at) = find_pair(text, lo, hi, '<', '=') {
        proof {
            lemma_first_at(s, seq!['<', '='], at - lo);
        }
        return Some((ConditionKind::LessEqual, at, 2));
    }
    if let Some(at) = find_char(text, lo, hi, '<') {
        proof {
            lemma_first_at(s, seq!['<'], at - lo);
        }
        return Some((ConditionKind::Less, at, 1));
    }
    if let Some(at) = find_pair(text, lo, hi, '>', '=') {
        proof {
            lemma_first_at(s, seq!['>', '='], at - lo);
        }
        return Some((ConditionKind::GreaterEqual, at, 2));
    }
    if let Some(at) = find_char(text, lo, hi, '>') {
        proof {
            lemma_first_at(s, seq!['>'], at - lo);
        }
        return Some((ConditionKind::Greater, at, 1));
    }
    if let Some(at) = find_pair(text, lo, hi, '!', '=') {
        proof {
            lemma_first_at(s, seq!['!', '='], at - lo);
        }
        return Some((ConditionKind::NotEqual, at, 2));
    }
    if let Some(at) = find_pair(text, lo, hi, '=', '=') {
        proof {
            lemma_first_at(s, seq!['=', '='], at - lo);
        }
        return Some((ConditionKind::Equal, at, 2));
    }
    None
}

/// The text `source[lo..hi]` as a string of its own.
fn cut(source: &str, lo: usize, hi: usize) -> (piece: String)
    requires
        lo <= hi <= source@.len(),
    ensures
        piece@ == source@.subrange(lo as int, hi as int),
{
    source.substring_char(lo, hi).to_owned()
}

/// Reads the clause `text[lo..hi]` as a condition.
fn read_condition(source: &str, text: &Vec<char>, lo: usize, hi: usize) -> (r: Option<Condition>)
    requires
        text@ == source@,
        lo <= hi <= text.len(),
    ensures
        r.deep_view() == condition(text@.subrange(lo as int, hi as int)),
{
    let (from, to) = trim_range(text, lo, hi);
    let ghost s = text@.subrange(from as int, to as int);
    match find_sign(text, from, to) {
        None => None,
        Some((kind, at, len)) => {
            let value_from = skip_spaces(text, at + len, to);
            let id_to = drop_spaces(text, from, at);
            proof {
                assert(s.subrange(at - from + len, s.len() as int) =~= text@.subrange(
                    at + len,
                    to as int,
                ));
                assert(s.subrange(0, at - from) =~= text@.subrange(from as int, at as int));
            }
            match Decimal::parse(text, value_from, to) {
                None => None,
                Some(value) => Some(Condition { kind, id: cut(source, from, id_to), value }),
            }
        },
    }
}

impl Condition {
    /// Reads the conditions of a choice.
    pub fn from_str(conditions: &str) -> (r: Option<Vec<Condition>>)
        ensures
            r.deep_view() == self::conditions(conditions@),
    {
        let text = chars_of(conditions);
        let n: usize = text.len();
        let ghost read = |clause: Seq<char>| condition(clause);
        let (from, to) = trim_range(&text, 0, n);
        assert(text@.subrange(0, n as int) =~= text@);
        let mut out: Vec<Condition> = Vec::new();
        if from == to {
            assert(out.deep_view() =~= Seq::<ConditionView>::empty());
            return Some(out);
        }
        let ranges = cut_at_each(&text, '&', Some('&'));
        let ghost pieces = split(text@, seq!['&', '&']);
        let mut i: usize = 0;
        while i < ranges.len()
            invariant
                text@ == conditions@,
                read == |clause: Seq<char>| condition(clause),
                pieces == split(text@, seq!['&', '&']),
                bounds_pieces(ranges@, text@, seq!['&', '&']),
                i <= ranges.len(),
                out.deep_view().len() == i,
                forall|k: int| 0 <= k < i ==> read(#[trigger] pieces[k]) == Some(out.deep_view()[k]),
                trim(text@).len() > 0,
            decreases ranges.len() - i,
        {
            let (lo, hi) = ranges[i];
            match read_condition(conditions, &text, lo, hi) {
                None => {
                    assert(read(pieces[i as int]) is None);
                    return None;
                },
                Some(c) => {
                    let ghost before = out.deep_view();
                    out.push(c);
                    assert(out.deep_view() =~= before.push(c.deep_view()));
                },
            }
            i = i + 1;
        }
        assert(out.deep_view() =~= pieces.map_values(|piece: Seq<char>| read(piece)->0));
        Some(out)
    }
}

/// Whether `text[lo..hi]` begins with `text[id_lo..id_hi]`.
fn begins_with(text: &Vec<char>, lo: usize, hi: usize, id_lo: usize, id_hi: usize) -> (r: bool)
    requires
        lo <= hi <= text.len(),
        id_lo <= id_hi <= text.len(),
    ensures
        r == text@.subrange(id_lo as int, id_hi as int).is_prefix_of(
            text@.subrange(lo as int, hi as int),
        ),
{
    let ghost id = text@.subrange(id_lo as int, id_hi as int);
    let ghost expr = text@.subrange(lo as int, hi as int);
    let len: usize = id_hi - id_lo;
    if len > hi - lo {
        return false;
    }
    let mut k: usize = 0;
    while k < len
        invariant
            lo <= hi <= text.len(),
            id_lo <= id_hi <= text.len(),
            len == id_hi - id_lo,
            len <= hi - lo,
            k <= len,
            id == text@.subrange(id_lo as int, id_hi as int),
            expr == text@.subrange(lo as int, hi as int),
            forall|j: int| 0 <= j < k ==> id[j] == expr[j],
        decreases len - k,
    {
        if text[id_lo + k] != text[lo + k] {
            assert(id[k as int] != expr.subrange(0, id.len() as int)[k as int]);
            return false;
        }
        k = k + 1;
    }
    assert(id =~= expr.subrange(0, id.len() as int));
    true
}

/// Reads `text[lo..hi]` as an increment of the variable `text[id_lo..id_hi]`.
fn read_increment(text: &Vec<char>, lo: usize, hi: usize, id_lo: usize, id_hi: usize) -> (r: Option<
    Decimal,
>)
    requires
        lo <= hi <= text.len(),
        id_lo <= id_hi <= text.len(),
    ensures
        r.deep_view() == increment(
            text@.subrange(id_lo as int, id_hi as int),
            text@.subrange(lo as int, hi as int),
        ),
{
    let ghost id = text@.subrange(id_lo as int, id_hi as int);
    let ghost expr = text@.subrange(lo as int, hi as int);
    if !begins_with(text, lo, hi, id_lo, id_hi) {
        return None;
    }
    let from = skip_spaces(text, lo + (id_hi - id_lo), hi);
    proof {
        assert(expr.subrange(id.len() as int, expr.len() as int) =~= text@.subrange(
            lo + (id_hi - id_lo),
            hi as int,
        ));
        if from < hi {
            assert(text@.subrange(from as int, hi as int).drop_first() =~= text@.subrange(
                from + 1,
                hi as int,
            ));
        }
    }
    if from < hi && text[from] == '+' {
        Decimal::parse(text, from + 1, hi)
    } else if from < hi && text[from] == '-' {
        match Decimal::parse(text, from + 1, hi) {
            Some(value) => Some(value.saturating_neg()),
            None => None,
        }
    } else {
        None
    }
}

/// Reads the clause `text[lo..hi]` as a change.
fn read_change(source: &str, text: &Vec<char>, lo: usize, hi: usize) -> (r: Option<Change>)
    requires
        text@ == source@,
        lo <= hi <= text.len(),
    ensures
        r.deep_view() == change(text@.subrange(lo as int, hi as int)),
{
    let ghost clause = text@.subrange(lo as int, hi as int);
    match find_char(text, lo, hi, '=') {
        None => None,
        Some(at) => {
            proof {
                lemma_first_at(clause, seq!['='], at - lo);
                assert(clause.subrange(0, at - lo) =~= text@.subrange(lo as int, at as int));
                assert(clause.subrange(at - lo + 1, clause.len() as int) =~= text@.subrange(
                    at + 1,
                    hi as int,
                ));
            }
            let (id_lo, id_hi) = trim_range(text, lo, at);
            let (expr_lo, expr_hi) = trim_range(text, at + 1, hi);
            match read_increment(text, expr_lo, expr_hi, id_lo, id_hi) {
                Some(value) => Some(
                    Change { kind: ChangeKind::Add, id: cut(source, id_lo, id_hi), value },
                ),
                None => match Decimal::parse(text, expr_lo, expr_hi) {
                    Some(value) => Some(
                        Change { kind: ChangeKind::Assign, id: cut(source, id_lo, id_hi), value },
                    ),
                    None => None,
                },
            }
        },
    }
}

impl Change {
    /// Reads the changes of a choice.
    pub fn from_str(changes: &str) -> (r: Option<Vec<Change>>)
        ensures
            r.deep_view() == self::changes(changes@),
    {
        let text = chars_of(changes);
        let n: usize = text.len();
        let ghost read = |clause: Seq<char>| change(clause);
        let (from, to) = trim_range(&text, 0, n);
        assert(text@.subrange(0, n as int) =~= text@);
        let mut out: Vec<Change> = Vec::new();
        if from == to {
            assert(out.deep_view() =~= Seq::<ChangeView>::empty());
            return Some(out);
        }
        let ranges = cut_at_each(&text, ';', None);
        let ghost pieces = split(text@, seq![';']);
        let mut i: usize = 0;
        while i < ranges.len()
            invariant
                text@ == changes@,
                read == |clause: Seq<char>| change(clause),
                pieces == split(text@, seq![';']),
                bounds_pieces(ranges@, text@, seq![';']),
                i <= ranges.len(),
                out.deep_view().len() == i,
                forall|k: int| 0 <= k < i ==> read(#[trigger] pieces[k]) == Some(out.deep_view()[k]),
                trim(text@).len() > 0,
            decreases ranges.len() - i,
        {
            let (lo, hi) = ranges[i];
            match read_change(changes, &text, lo, hi) {
                None => {
                    assert(read(pieces[i as int]) is None);
                    return None;
                },
                Some(c) => {
                    let ghost before = out.deep_view();
                    out.push(c);
                    assert(out.deep_view() =~= before.push(c.deep_view()));
                },
            }
            i = i + 1;
        }
        assert(out.deep_view() =~= pieces.map_values(|piece: Seq<char>| read(piece)->0));
        Some(out)
    }
}

} // verus!
