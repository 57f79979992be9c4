//! Text as sequences of characters: white space, trimming and searching.

use vstd::prelude::*;

verus! {

/// Whether `c` is white space: a character with the Unicode property
/// `White_Space`.
pub open spec fn is_space(c: char) -> bool {
    let n = c as u32;
    ||| 0x09 <= n <= 0x0D
    ||| n == 0x20
    ||| n == 0x85
    ||| n == 0xA0
    ||| n == 0x1680
    ||| 0x2000 <= n <= 0x200A
    ||| n == 0x2028
    ||| n == 0x2029
    ||| n == 0x202F
    ||| n == 0x205F
    ||| n == 0x3000
}

/// The text without the white space at its start.
pub open spec fn trim_start(s: Seq<char>) -> Seq<char>
    decreases s.len(),
{
    if s.len() > 0 && is_space(s[0]) {
        trim_start(s.drop_first())
    } else {
        s
    }
}

/// The text without the white space at its end.
pub open spec fn trim_end(s: Seq<char>) -> Seq<char>
    decreases s.len(),
{
    if s.len() > 0 && is_space(s.last()) {
        trim_end(s.drop_last())
    } else {
        s
    }
}

/// The text without the white space at its start and at its end.
pub open spec fn trim(s: Seq<char>) -> Seq<char> {
    trim_end(trim_start(s))
}

/// Whether `pat` stands in `s` at `i`.
pub open spec fn occurs_at(s: Seq<char>, pat: Seq<char>, i: int) -> bool {
    0 <= i && i + pat.len() <= s.len() && s.subrange(i, i + pat.len()) == pat
}

/// Whether `i` is the first place at which `pat` stands in `s`.
pub open spec fn is_first(s: Seq<char>, pat: Seq<char>, i: int) -> bool {
    occurs_at(s, pat, i) && forall|j: int| 0 <= j < i ==> !occurs_at(s, pat, j)
}

/// The first place at which `pat` stands in `s`, if it stands there at all.
pub open spec fn first_at(s: Seq<char>, pat: Seq<char>) -> Option<int> {
    if exists|i: int| is_first(s, pat, i) {
        Some(choose|i: int| is_first(s, pat, i))
    } else {
        None
    }
}

/// The pieces into which the occurrences of `pat` cut `s`, found from left
/// to right.
pub open spec fn split(s: Seq<char>, pat: Seq<char>) -> Seq<Seq<char>>
    recommends
        pat.len() > 0,
    decreases s.len(),
    when pat.len() > 0
{
    match first_at(s, pat) {
        None => seq![s],
        Some(i) => {
            if is_first(s, pat, i) {
                seq![s.subrange(0, i)] + split(s.subrange(i + pat.len(), s.len() as int), pat)
            } else {
                seq![s]
            }
        },
    }
}

/// There is one first place at most.
pub proof fn lemma_first_at(s: Seq<char>, pat: Seq<char>, i: int)
    requires
        is_first(s, pat, i),
    ensures
        first_at(s, pat) == Some(i),
{
    let j = choose|j: int| is_first(s, pat, j);
    assert(is_first(s, pat, j));
    if j < i {
        assert(!occurs_at(s, pat, j));
    } else if i < j {
        assert(!occurs_at(s, pat, i));
    }
}

/// Where `pat` stands nowhere, there is no first place.
pub proof fn lemma_first_at_none(s: Seq<char>, pat: Seq<char>)
    requires
        forall|j: int| !occurs_at(s, pat, j),
    ensures
        first_at(s, pat) is None,
{
    if exists|i: int| is_first(s, pat, i) {
        let i = choose|i: int| is_first(s, pat, i);
        assert(occurs_at(s, pat, i));
    }
}

/// The first place at which `pat` stands is a place at which it stands.
pub proof fn lemma_first_is_place(s: Seq<char>, pat: Seq<char>)
    ensures
        first_at(s, pat) matches Some(at) ==> is_first(s, pat, at),
{
    if exists|i: int| is_first(s, pat, i) {
        let i = choose|i: int| is_first(s, pat, i);
        assert(is_first(s, pat, i));
    }
}

/// Where `pat` stands somewhere, there is a first place, and it is no later.
pub proof fn lemma_first_exists(s: Seq<char>, pat: Seq<char>, i: int)
    requires
        occurs_at(s, pat, i),
    ensures
        first_at(s, pat) matches Some(at) && at <= i && is_first(s, pat, at),
    decreases i,
{
    if exists|j: int| 0 <= j < i && occurs_at(s, pat, j) {
        let j = choose|j: int| 0 <= j < i && occurs_at(s, pat, j);
        lemma_first_exists(s, pat, j);
    } else {
        assert(is_first(s, pat, i));
        lemma_first_at(s, pat, i);
    }
}

/// Whether `c` is white space.
pub fn is_white_space(c: char) -> (r: bool)
    ensures
        r == is_space(c),
{
    let n: u32 = c as u32;
    (0x09 <= n && n <= 0x0D) || n == 0x20 || n == 0x85 || n == 0xA0 || n == 0x1680 || (0x2000 <= n
        && n <= 0x200A) || n == 0x2028 || n == 0x2029 || n == 0x202F || n == 0x205F || n == 0x3000
}

/// The characters of a string.
pub fn chars_of(s: &str) -> (chars: Vec<char>)
    ensures
        chars@ == s@,
{
    let mut chars: Vec<char> = Vec::new();
    for c in it: s.chars()
        invariant
            chars@ == it.seq().take(it.index() as int),
            it.seq() == s@,
    {
        chars.push(c);
    }
    chars
}

/// The part of `text[lo..hi]` that is left when the white space at its start
/// is taken away: where it begins.
pub fn skip_spaces(text: &Vec<char>, lo: usize, hi: usize) -> (at: usize)
    requires
        lo <= hi <= text.len(),
    ensures
        lo <= at <= hi,
        text@.subrange(at as int, hi as int) == trim_start(text@.subrange(lo as int, hi as int)),
{
    let mut at: usize = lo;
    while at < hi && is_white_space(text[at])
        invariant
            lo <= at <= hi <= text.len(),
            trim_start(text@.subrange(at as int, hi as int)) == trim_start(
                text@.subrange(lo as int, hi as int),
            ),
        decreases hi - at,
    {
        assert(text@.subrange(at as int, hi as int).drop_first() =~= text@.subrange(
            at + 1,
            hi as int,
        ));
        at = at + 1;
    }
    at
}

/// The part of `text[lo..hi]` that is left when the white space at its end is
/// taken away: where it ends.
pub fn drop_spaces(text: &Vec<char>, lo: usize, hi: usize) -> (end: usize)
    requires
        lo <= hi <= text.len(),
    ensures
        lo <= end <= hi,
        text@.subrange(lo as int, end as int) == trim_end(text@.subrange(lo as int, hi as int)),
{
    let mut end: usize = hi;
    while lo < end && is_white_space(text[end - 1])
        invariant
            lo <= end <= hi <= text.len(),
            trim_end(text@.subrange(lo as int, end as int)) == trim_end(
                text@.subrange(lo as int, hi as int),
            ),
        decreases end - lo,
    {
        assert(text@.subrange(lo as int, end as int).drop_last() =~= text@.subrange(
            lo as int,
            end - 1,
        ));
        end = end - 1;
    }
    end
}

/// The first place in `text[lo..hi]` at which the character `a` stands.
pub fn find_char(text: &Vec<char>, lo: usize, hi: usize, a: char) -> (r: Option<usize>)
    requires
        lo <= hi <= text.len(),
    ensures
        match r {
            Some(at) => lo <= at < hi && is_first(
                text@.subrange(lo as int, hi as int),
                seq![a],
                at - lo,
            ),
            None => first_at(text@.subrange(lo as int, hi as int), seq![a]) is None,
        },
{
    let ghost s = text@.subrange(lo as int, hi as int);
    let ghost pat = seq![a];
    let mut at: usize = lo;
    while at < hi
        invariant
            lo <= at <= hi <= text.len(),
            s == text@.subrange(lo as int, hi as int),
            pat == seq![a],
            forall|j: int| 0 <= j < at - lo ==> !occurs_at(s, pat, j),
        decreases hi - at,
    {
        if text[at] == a {
            assert(s.subrange(at - lo, at - lo + 1) =~= pat);
            return Some(at);
        }
        assert(!occurs_at(s, pat, at - lo)) by {
            if occurs_at(s, pat, at - lo) {
                assert(s.subrange(at - lo, at - lo + 1)[0] == pat[0]);
            }
        }
        at = at + 1;
    }
    proof {
        lemma_first_at_none(s, pat);
    }
    None
}

/// The first place in `text[lo..hi]` at which the characters `a`, `b` stand
/// side by side.
pub fn find_pair(text: &Vec<char>, lo: usize, hi: usize, a: char, b: char) -> (r: Option<usize>)
    requires
        lo <= hi <= text.len(),
    ensures
        match r {
            Some(at) => lo <= at && at + 2 <= hi && is_first(
                text@.subrange(lo as int, hi as int),
                seq![a, b],
                at - lo,
            ),
            None => first_at(text@.subrange(lo as int, hi as int), seq![a, b]) is None,
        },
{
    let ghost s = text@.subrange(lo as int, hi as int);
    let ghost pat = seq![a, b];
    let mut at: usize = lo;
    while at < hi && hi - at >= 2
        invariant
            lo <= at <= hi <= text.len(),
            s == text@.subrange(lo as int, hi as int),
            pat == seq![a, b],
            forall|j: int| 0 <= j < at - lo ==> !occurs_at(s, pat, j),
        decreases hi - at,
    {
        if text[at] == a && text[at + 1] == b {
            assert(s.subrange(at - lo, at - lo + 2) =~= pat);
            return Some(at);
        }
        assert(!occurs_at(s, pat, at - lo)) by {
            if occurs_at(s, pat, at - lo) {
                assert(s.subrange(at - lo, at - lo + 2)[0] == pat[0]);
                assert(s.subrange(at - lo, at - lo + 2)[1] == pat[1]);
            }
        }
        at = at + 1;
    }
    proof {
        lemma_first_at_none(s, pat);
    }
    None
}


/// The separator that is `a`, or `a` and `b` side by side.
pub open spec fn separator(a: char, b: Option<char>) -> Seq<char> {
    match b {
        Some(b) => seq![a, b],
        None => seq![a],
    }
}

/// Whether the ranges bound, one for one, the pieces into which `pat` cuts
/// `text`.
pub open spec fn bounds_pieces(ranges: Seq<(usize, usize)>, text: Seq<char>, pat: Seq<char>) -> bool {
    &&& ranges.len() == split(text, pat).len()
    &&& forall|i: int|
        0 <= i < ranges.len() ==> {
            &&& (#[trigger] ranges[i]).0 <= ranges[i].1 <= text.len()
            &&& text.subrange(ranges[i].0 as int, ranges[i].1 as int) == split(text, pat)[i]
        }
}

/// Cuts `text` at every separator, from left to right, and gives the bounds
/// of the pieces.
pub fn cut_at_each(text: &Vec<char>, a: char, b: Option<char>) -> (ranges: Vec<(usize, usize)>)
    ensures
        bounds_pieces(ranges@, text@, separator(a, b)),
{
    let n: usize = text.len();
    let ghost pat = separator(a, b);
    let mut ranges: Vec<(usize, usize)> = Vec::new();
    let mut pos: usize = 0;
    let mut open = true;
    assert(text@.subrange(0, n as int) =~= text@);
    while open
        invariant
            n == text.len(),
            pat == separator(a, b),
            pos <= n,
            open ==> split(text@, pat) == Seq::new(
                ranges@.len(),
                |i: int| text@.subrange(ranges@[i].0 as int, ranges@[i].1 as int),
            ) + split(text@.subrange(pos as int, n as int), pat),
            !open ==> split(text@, pat) == Seq::new(
                ranges@.len(),
                |i: int| text@.subrange(ranges@[i].0 as int, ranges@[i].1 as int),
            ),
            forall|i: int| 0 <= i < ranges@.len() ==> (#[trigger] ranges@[i]).0 <= ranges@[i].1 <= n,
        decreases (n - pos) + (if open { 1int } else { 0int }),
    {
        let ghost tail = text@.subrange(pos as int, n as int);
        let ghost done = Seq::new(
            ranges@.len(),
            |i: int| text@.subrange(ranges@[i].0 as int, ranges@[i].1 as int),
        );
        let found = match b {
            Some(b) => find_pair(text, pos, n, a, b),
            None => find_char(text, pos, n, a),
        };
        let end: usize = match found {
            Some(at) => at,
            None => n,
        };
        let ghost piece = text@.subrange(pos as int, end as int);
        ranges.push((pos, end));
        proof {
            let longer = Seq::new(
                ranges@.len(),
                |i: int| text@.subrange(ranges@[i].0 as int, ranges@[i].1 as int),
            );
            assert(longer =~= done.push(piece));
            match found {
                Some(at) => {
                    lemma_first_at(tail, pat, at - pos);
                    assert(tail.subrange(0, at - pos) =~= piece);
                    assert(tail.subrange(at - pos + pat.len(), tail.len() as int)
                        =~= text@.subrange(at + pat.len(), n as int));
                    assert(done + split(tail, pat) =~= longer + split(
                        text@.subrange(at + pat.len(), n as int),
                        pat,
                    ));
                },
                None => {
                    assert(tail =~= piece);
                    assert(done + split(tail, pat) =~= longer);
                },
            }
        }
        match found {
            Some(at) => {
                pos = at + (if b.is_some() { 2usize } else { 1usize });
            },
            None => {
                open = false;
            },
        }
    }
    ranges
}

/// The character that stands for a number below ten.
pub open spec fn digit_char(d: nat) -> char
    recommends
        d < 10,
{
    if d == 0 {
        '0'
    } else if d == 1 {
        '1'
    } else if d == 2 {
        '2'
    } else if d == 3 {
        '3'
    } else if d == 4 {
        '4'
    } else if d == 5 {
        '5'
    } else if d == 6 {
        '6'
    } else if d == 7 {
        '7'
    } else if d == 8 {
        '8'
    } else {
        '9'
    }
}

/// How a number is written in decimal digits, without zeros in front.
pub open spec fn decimal_of(n: nat) -> Seq<char>
    decreases n,
{
    if n < 10 {
        seq![digit_char(n)]
    } else {
        decimal_of(n / 10).push(digit_char(n % 10))
    }
}

/// The digit that stands for a number below ten.
fn digit_text(d: usize) -> (text: &'static str)
    requires
        d < 10,
    ensures
        text@ == seq![digit_char(d as nat)],
{
    proof {
        reveal_strlit("0");
        reveal_strlit("1");
        reveal_strlit("2");
        reveal_strlit("3");
        reveal_strlit("4");
        reveal_strlit("5");
        reveal_strlit("6");
        reveal_strlit("7");
        reveal_strlit("8");
        reveal_strlit("9");
    }
    let text = if d == 0 {
        "0"
    } else if d == 1 {
        "1"
    } else if d == 2 {
        "2"
    } else if d == 3 {
        "3"
    } else if d == 4 {
        "4"
    } else if d == 5 {
        "5"
    } else if d == 6 {
        "6"
    } else if d == 7 {
        "7"
    } else if d == 8 {
        "8"
    } else {
        "9"
    };
    assert(text@ =~= seq![digit_char(d as nat)]);
    text
}

/// Writes a number in decimal digits.
pub fn write_decimal(n: usize) -> (text: String)
    ensures
        text@ == decimal_of(n as nat),
    decreases n,
{
    if n < 10 {
        String::from_str(digit_text(n))
    } else {
        let mut text = write_decimal(n / 10);
        text.append(digit_text(n % 10));
        assert(text@ =~= decimal_of((n / 10) as nat).push(digit_char((n % 10) as nat)));
        text
    }
}

} // verus!
