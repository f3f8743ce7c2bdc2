use vstd::prelude::*;
use crate::timestamp::{is_digit, digits_value, all_digits, chars_of, parse_number};

verus! {

/// `FILE "`, which opens a file directive.
pub open spec fn file_open() -> Seq<char> {
    seq!['F', 'I', 'L', 'E', ' ', '"']
}

/// `" BINARY`, which closes a file directive.
pub open spec fn file_close() -> Seq<char> {
    seq!['"', ' ', 'B', 'I', 'N', 'A', 'R', 'Y']
}

/// `TRACK `, which opens a track directive.
pub open spec fn track_open() -> Seq<char> {
    seq!['T', 'R', 'A', 'C', 'K', ' ']
}

/// `INDEX `, which opens an index directive.
pub open spec fn index_open() -> Seq<char> {
    seq!['I', 'N', 'D', 'E', 'X', ' ']
}

/// Whitespace, which ends a track's mode.
pub open spec fn is_space(c: char) -> bool {
    c == ' ' || c == '\t' || c == '\n' || c == '\r' || c == '\x0B' || c == '\x0C'
}

/// `lit` stands in `s` at position `i`.
pub open spec fn lit_at(s: Seq<char>, i: int, lit: Seq<char>) -> bool {
    0 <= i && i + lit.len() <= s.len() && s.subrange(i, i + lit.len()) == lit
}

/// The first position at or after `j` where `lit` stands, or the length of `s`.
pub open spec fn lit_from(s: Seq<char>, j: int, lit: Seq<char>) -> int
    decreases s.len() + 1 - j,
{
    if j < 0 || j + lit.len() > s.len() {
        s.len() as int
    } else if lit_at(s, j, lit) {
        j
    } else {
        lit_from(s, j + 1, lit)
    }
}

/// The end of the run of digits that starts at `a`.
pub open spec fn digit_end(s: Seq<char>, a: int) -> int
    decreases s.len() - a,
{
    if 0 <= a < s.len() && is_digit(s[a]) {
        digit_end(s, a + 1)
    } else {
        a
    }
}

/// The end of the run of non-whitespace characters that starts at `a`.
pub open spec fn word_end(s: Seq<char>, a: int) -> int
    decreases s.len() - a,
{
    if 0 <= a < s.len() && !is_space(s[a]) {
        word_end(s, a + 1)
    } else {
        a
    }
}

/// `FILE "<name>" BINARY` starts at `i`, where the name is the shortest that works.
pub open spec fn file_at(s: Seq<char>, i: int) -> bool {
    lit_at(s, i, file_open()) && lit_from(s, i + 6, file_close()) < s.len()
}

pub open spec fn file_name(s: Seq<char>, i: int) -> Seq<char> {
    s.subrange(i + 6, lit_from(s, i + 6, file_close()))
}

/// `TRACK <digits> ` starts at `i`; the mode is the word that follows.
pub open spec fn track_at(s: Seq<char>, i: int) -> bool {
    let k = digit_end(s, i + 6);
    lit_at(s, i, track_open()) && k > i + 6 && k < s.len() && s[k] == ' '
}

pub open spec fn track_number(s: Seq<char>, i: int) -> nat {
    digits_value(s.subrange(i + 6, digit_end(s, i + 6)))
}

pub open spec fn track_mode(s: Seq<char>, i: int) -> Seq<char> {
    let k = digit_end(s, i + 6);
    s.subrange(k + 1, word_end(s, k + 1))
}

/// `INDEX <digits> <digits>:<digits>:<digits>` starts at `i`.
pub open spec fn index_at(s: Seq<char>, i: int) -> bool {
    let k = digit_end(s, i + 6);
    let a = digit_end(s, k + 1);
    let b = digit_end(s, a + 1);
    let e = digit_end(s, b + 1);
    &&& lit_at(s, i, index_open())
    &&& k > i + 6 && k < s.len() && s[k] == ' '
    &&& a > k + 1 && a < s.len() && s[a] == ':'
    &&& b > a + 1 && b < s.len() && s[b] == ':'
    &&& e > b + 1
}

pub open spec fn index_number(s: Seq<char>, i: int) -> nat {
    digits_value(s.subrange(i + 6, digit_end(s, i + 6)))
}

pub open spec fn index_stamp(s: Seq<char>, i: int) -> Seq<char> {
    let k = digit_end(s, i + 6);
    let a = digit_end(s, k + 1);
    let b = digit_end(s, a + 1);
    s.subrange(k + 1, digit_end(s, b + 1))
}

/// `i` is the leftmost position at which `p` holds.
pub open spec fn leftmost(p: spec_fn(int) -> bool, i: int) -> bool {
    0 <= i && p(i) && forall|k: int| 0 <= k < i ==> !#[trigger] p(k)
}

pub open spec fn has_match(p: spec_fn(int) -> bool) -> bool {
    exists|i: int| leftmost(p, i)
}

pub open spec fn first_match(p: spec_fn(int) -> bool) -> int {
    choose|i: int| leftmost(p, i)
}

/// What a line of a sheet says, as far as the three directives go.
pub ghost enum DirectiveModel {
    File(Seq<char>),
    Track(u32, Seq<char>),
    Index(u32, Seq<char>),
    Other,
}

/// How a line reads. Directives are tried in the order FILE, TRACK, INDEX, each
/// at its leftmost place in the line; a track or index number that does not fit
/// in 32 bits makes the line no directive of that kind.
pub open spec fn classify(s: Seq<char>) -> DirectiveModel {
    let f = |i: int| file_at(s, i);
    let t = |i: int| track_at(s, i);
    let x = |i: int| index_at(s, i);
    if has_match(f) {
        DirectiveModel::File(file_name(s, first_match(f)))
    } else if has_match(t) && track_number(s, first_match(t)) <= u32::MAX {
        DirectiveModel::Track(track_number(s, first_match(t)) as u32, track_mode(s, first_match(t)))
    } else if has_match(x) && index_number(s, first_match(x)) <= u32::MAX {
        DirectiveModel::Index(index_number(s, first_match(x)) as u32, index_stamp(s, first_match(x)))
    } else {
        DirectiveModel::Other
    }
}

/// A line of a sheet, read as one of the three directives or as none.
#[derive(Debug, PartialEq, Eq)]
pub enum Directive {
    File { name: String },
    Track { number: u32, mode: String },
    Index { number: u32, stamp: String },
    Other,
}

impl View for Directive {
    type V = DirectiveModel;

    open spec fn view(&self) -> DirectiveModel {
        match self {
            Directive::File { name } => DirectiveModel::File(name@),
            Directive::Track { number, mode } => DirectiveModel::Track(*number, mode@),
            Directive::Index { number, stamp } => DirectiveModel::Index(*number, stamp@),
            Directive::Other => DirectiveModel::Other,
        }
    }
}


proof fn lemma_leftmost(p: spec_fn(int) -> bool, i: int)
    requires
        0 <= i,
        p(i),
        forall|k: int| 0 <= k < i ==> !#[trigger] p(k),
    ensures
        has_match(p),
        first_match(p) == i,
{
    assert(leftmost(p, i));
    let c = first_match(p);
    if c < i {
        assert(!p(c));
    }
    if c > i {
        assert(!p(i));
    }
}

proof fn lemma_no_match(p: spec_fn(int) -> bool, n: int)
    requires
        forall|k: int| 0 <= k < n ==> !#[trigger] p(k),
        forall|k: int| k >= n ==> !#[trigger] p(k),
    ensures
        !has_match(p),
{
    if has_match(p) {
        let c = first_match(p);
        assert(p(c));
    }
}

/// Whether `lit` stands in `s` at position `i`.
fn lit_matches(s: &Vec<char>, i: usize, lit: &Vec<char>) -> (r: bool)
    ensures
        r == lit_at(s@, i as int, lit@),
{
    if i > s.len() || lit.len() > s.len() - i {
        return false;
    }
    let mut k: usize = 0;
    while k < lit.len()
        invariant
            i + lit@.len() <= s@.len(),
            s@.len() <= usize::MAX,
            k <= lit@.len(),
            forall|t: int| 0 <= t < k ==> s@[i + t] == lit@[t],
        decreases lit@.len() - k,
    {
        if s[i + k] != lit[k] {
            assert(s@.subrange(i as int, i + lit@.len())[k as int] != lit@[k as int]);
            return false;
        }
        k = k + 1;
    }
    assert(s@.subrange(i as int, i + lit@.len()) =~= lit@);
    true
}

/// The first position at or after `j` where `lit` stands, or the length of `s`.
fn find_lit(s: &Vec<char>, j: usize, lit: &Vec<char>) -> (r: usize)
    requires
        j <= s@.len(),
    ensures
        r as int == lit_from(s@, j as int, lit@),
{
    let mut p = j;
    while p < s.len() && lit.len() <= s.len() - p
        invariant
            j <= p <= s@.len(),
            lit_from(s@, j as int, lit@) == lit_from(s@, p as int, lit@),
        decreases s@.len() - p,
    {
        if lit_matches(s, p, lit) {
            return p;
        }
        p = p + 1;
    }
    if p == s.len() && lit.len() == 0 {
        assert(s@.subrange(p as int, p as int) =~= lit@);
    }
    s.len()
}

/// The end of the run of digits that starts at `a`.
fn find_digit_end(s: &Vec<char>, a: usize) -> (r: usize)
    requires
        a <= s@.len(),
    ensures
        r as int == digit_end(s@, a as int),
        a <= r <= s@.len(),
        all_digits(s@.subrange(a as int, r as int)),
{
    let mut p = a;
    while p < s.len() && '0' <= s[p] && s[p] <= '9'
        invariant
            a <= p <= s@.len(),
            digit_end(s@, a as int) == digit_end(s@, p as int),
            forall|t: int| a <= t < p ==> is_digit(s@[t]),
        decreases s@.len() - p,
    {
        p = p + 1;
    }
    assert forall|t: int| 0 <= t < p - a implies is_digit(#[trigger] s@.subrange(a as int, p as int)[t]) by {
        assert(is_digit(s@[a + t]));
    }
    p
}

/// The end of the run of non-whitespace characters that starts at `a`.
fn find_word_end(s: &Vec<char>, a: usize) -> (r: usize)
    requires
        a <= s@.len(),
    ensures
        r as int == word_end(s@, a as int),
        a <= r <= s@.len(),
{
    let mut p = a;
    while p < s.len() && !(s[p] == ' ' || s[p] == '\t' || s[p] == '\n' || s[p] == '\r'
        || s[p] == '\x0B' || s[p] == '\x0C')
        invariant
            a <= p <= s@.len(),
            word_end(s@, a as int) == word_end(s@, p as int),
        decreases s@.len() - p,
    {
        p = p + 1;
    }
    p
}

proof fn lemma_word_end_bounded(s: Seq<char>, a: int)
    requires
        0 <= a,
    ensures
        a <= word_end(s, a),
    decreases s.len() - a,
{
    if 0 <= a < s.len() && !is_space(s[a]) {
        lemma_word_end_bounded(s, a + 1);
    }
}

proof fn lemma_lit_from_bounded(s: Seq<char>, j: int, lit: Seq<char>)
    ensures
        lit_from(s, j, lit) <= s.len(),
        lit_from(s, j, lit) < s.len() ==> j <= lit_from(s, j, lit),
    decreases s.len() + 1 - j,
{
    if !(j < 0 || j + lit.len() > s.len()) && !lit_at(s, j, lit) {
        lemma_lit_from_bounded(s, j + 1, lit);
    }
}

/// Where the leftmost file directive in `s` starts, and where its name ends.
fn find_file(s: &Vec<char>) -> (r: Option<(usize, usize)>)
    ensures
        match r {
            Some((i, j)) => has_match(|i: int| file_at(s@, i))
                && i == first_match(|i: int| file_at(s@, i))
                && j == lit_from(s@, i + 6, file_close())
                && i + 6 <= j < s@.len(),
            None => !has_match(|i: int| file_at(s@, i)),
        },
{
    let ghost p = |i: int| file_at(s@, i);
    let open = vec!['F', 'I', 'L', 'E', ' ', '"'];
    let close = vec!['"', ' ', 'B', 'I', 'N', 'A', 'R', 'Y'];
    assert(open@ =~= file_open());
    assert(close@ =~= file_close());
    let mut i: usize = 0;
    while i < s.len()
        invariant
            i <= s@.len(),
            p == (|i: int| file_at(s@, i)),
            open@ == file_open(),
            close@ == file_close(),
            forall|k: int| 0 <= k < i ==> !#[trigger] p(k),
        decreases s@.len() - i,
    {
        if lit_matches(s, i, &open) {
            let j = find_lit(s, i + 6, &close);
            if j < s.len() {
                proof {
                    lemma_leftmost(p, i as int);
                    lemma_lit_from_bounded(s@, i + 6, file_close());
                }
                return Some((i, j));
            }
        }
        assert(!p(i as int));
        i = i + 1;
    }
    proof {
        assert forall|k: int| k >= i implies !#[trigger] p(k) by {
            if k >= i {
                assert(!lit_at(s@, k, file_open()));
            }
        }
        lemma_no_match(p, i as int);
    }
    None
}

/// Where the leftmost track directive in `s` starts, where its number ends and
/// where its mode ends.
fn find_track(s: &Vec<char>) -> (r: Option<(usize, usize, usize)>)
    ensures
        match r {
            Some((i, k, e)) => has_match(|i: int| track_at(s@, i))
                && i == first_match(|i: int| track_at(s@, i))
                && k == digit_end(s@, i + 6)
                && e == word_end(s@, k + 1)
                && i + 6 < k < k + 1 <= e <= s@.len()
                && all_digits(s@.subrange(i + 6, k as int)),
            None => !has_match(|i: int| track_at(s@, i)),
        },
{
    let ghost p = |i: int| track_at(s@, i);
    let open = vec!['T', 'R', 'A', 'C', 'K', ' '];
    assert(open@ =~= track_open());
    let mut i: usize = 0;
    while i < s.len()
        invariant
            i <= s@.len(),
            p == (|i: int| track_at(s@, i)),
            open@ == track_open(),
            forall|k: int| 0 <= k < i ==> !#[trigger] p(k),
        decreases s@.len() - i,
    {
        if lit_matches(s, i, &open) {
            let k = find_digit_end(s, i + 6);
            if k > i + 6 && k < s.len() && s[k] == ' ' {
                let e = find_word_end(s, k + 1);
                proof {
                    lemma_word_end_bounded(s@, k + 1);
                    lemma_leftmost(p, i as int);
                }
                return Some((i, k, e));
            }
        }
        assert(!p(i as int));
        i = i + 1;
    }
    proof {
        assert forall|k: int| k >= i implies !#[trigger] p(k) by {
            if k >= i {
                assert(!lit_at(s@, k, track_open()));
            }
        }
        lemma_no_match(p, i as int);
    }
    None
}

/// Where the leftmost index directive in `s` starts, where its number ends and
/// where its timestamp ends.
fn find_index(s: &Vec<char>) -> (r: Option<(usize, usize, usize)>)
    ensures
        match r {
            Some((i, k, e)) => has_match(|i: int| index_at(s@, i))
                && i == first_match(|i: int| index_at(s@, i))
                && k == digit_end(s@, i + 6)
                && e == digit_end(s@, digit_end(s@, digit_end(s@, k + 1) + 1) + 1)
                && i + 6 < k < e <= s@.len()
                && all_digits(s@.subrange(i + 6, k as int)),
            None => !has_match(|i: int| index_at(s@, i)),
        },
{
    let ghost p = |i: int| index_at(s@, i);
    let open = vec!['I', 'N', 'D', 'E', 'X', ' '];
    assert(open@ =~= index_open());
    let mut i: usize = 0;
    while i < s.len()
        invariant
            i <= s@.len(),
            p == (|i: int| index_at(s@, i)),
            open@ == index_open(),
            forall|k: int| 0 <= k < i ==> !#[trigger] p(k),
        decreases s@.len() - i,
    {
        if lit_matches(s, i, &open) {
            let k = find_digit_end(s, i + 6);
            if k > i + 6 && k < s.len() && s[k] == ' ' {
                let a = find_digit_end(s, k + 1);
                if a > k + 1 && a < s.len() && s[a] == ':' {
                    let b = find_digit_end(s, a + 1);
                    if b > a + 1 && b < s.len() && s[b] == ':' {
                        let e = find_digit_end(s, b + 1);
                        if e > b + 1 {
                            proof {
                                lemma_leftmost(p, i as int);
                            }
                            return Some((i, k, e));
                        }
                    }
                }
            }
        }
        assert(!p(i as int));
        i = i + 1;
    }
    proof {
        assert forall|k: int| k >= i implies !#[trigger] p(k) by {
            if k >= i {
                assert(!lit_at(s@, k, index_open()));
            }
        }
        lemma_no_match(p, i as int);
    }
    None
}

/// Reads one line of a sheet as a directive; see `classify`.
pub fn classify_line(line: &str) -> (r: Directive)
    ensures
        r@ == classify(line@),
{
    let s = chars_of(line);
    match find_file(&s) {
        Some((i, j)) => {
            let name = line.substring_char(i + 6, j).to_owned();
            return Directive::File { name };
        },
        None => {},
    }
    match find_track(&s) {
        Some((i, k, e)) => {
            match parse_number(&s, i + 6, k) {
                Some(number) => {
                    let mode = line.substring_char(k + 1, e).to_owned();
                    return Directive::Track { number, mode };
                },
                None => {},
            }
        },
        None => {},
    }
    match find_index(&s) {
        Some((i, k, e)) => {
            match parse_number(&s, i + 6, k) {
                Some(number) => {
                    let stamp = line.substring_char(k + 1, e).to_owned();
                    return Directive::Index { number, stamp };
                },
                None => {},
            }
        },
        None => {},
    }
    Directive::Other
}

} // verus!
