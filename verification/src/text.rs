use vstd::assert_by_contradiction;
use vstd::prelude::*;

verus! {

// ---------------------------------------------------------------------------
// Character classes
// ---------------------------------------------------------------------------

/// ASCII whitespace, as trimmed from table cells.
pub open spec fn is_space(c: char) -> bool {
    c == ' ' || c == '\t' || c == '\r'
}

pub open spec fn is_digit(c: char) -> bool {
    48 <= (c as u32) && (c as u32) <= 57
}

pub open spec fn digit_val(c: char) -> int {
    (c as u32) - 48
}

pub open spec fn all_digits(s: Seq<char>) -> bool {
    forall|i: int| 0 <= i < s.len() ==> is_digit(#[trigger] s[i])
}

// ---------------------------------------------------------------------------
// Splitting on a delimiter
// ---------------------------------------------------------------------------

/// The pieces of `s` between occurrences of the delimiter `d`.
/// Always at least one piece; an empty input gives one empty piece.
pub open spec fn spec_split(s: Seq<char>, d: char) -> Seq<Seq<char>>
    decreases s.len(),
{
    if s.len() == 0 {
        seq![Seq::<char>::empty()]
    } else {
        let p = spec_split(s.drop_last(), d);
        if s.last() == d {
            p.push(Seq::<char>::empty())
        } else {
            p.update(p.len() - 1, p.last().push(s.last()))
        }
    }
}

pub proof fn lemma_split_nonempty(s: Seq<char>, d: char)
    ensures
        spec_split(s, d).len() >= 1,
    decreases s.len(),
{
    if s.len() > 0 {
        lemma_split_nonempty(s.drop_last(), d);
    }
}

pub fn split_chars(s: &Vec<char>, d: char) -> (r: Vec<Vec<char>>)
    ensures
        r.deep_view() == spec_split(s@, d),
{
    let mut pieces: Vec<Vec<char>> = Vec::new();
    let mut cur: Vec<char> = Vec::new();
    let mut i: usize = 0;
    proof {
        assert(s@.take(0int) =~= Seq::<char>::empty());
        assert(pieces.deep_view().push(cur@) =~~= spec_split(s@.take(0int), d));
    }
    while i < s.len()
        invariant
            i <= s.len(),
            pieces.deep_view().push(cur@) == spec_split(s@.take(i as int), d),
        decreases s.len() - i,
    {
        let ghost pre = s@.take(i as int);
        let ghost old_split = spec_split(pre, d);
        let c = s[i];
        proof {
            assert(s@.take(i + 1int).drop_last() =~= pre);
            assert(s@.take(i + 1int).last() == c);
            lemma_split_nonempty(pre, d);
        }
        if c == d {
            let ghost old_pieces = pieces.deep_view();
            let ghost old_cur = cur@;
            pieces.push(cur);
            cur = Vec::new();
            proof {
                assert(pieces.deep_view() =~~= old_pieces.push(old_cur));
                assert(pieces.deep_view().push(cur@) =~~= old_split.push(Seq::<char>::empty()));
                assert(spec_split(s@.take(i + 1int), d) == old_split.push(Seq::<char>::empty()));
            }
        } else {
            let ghost old_cur = cur@;
            cur.push(c);
            proof {
                assert(old_split.last() == old_cur);
                assert(pieces.deep_view().push(cur@) =~~= old_split.update(
                    old_split.len() - 1,
                    old_split.last().push(c),
                ));
                assert(spec_split(s@.take(i + 1int), d) == old_split.update(
                    old_split.len() - 1,
                    old_split.last().push(c),
                ));
            }
        }
        i = i + 1;
    }
    proof {
        assert(s@.take(s@.len() as int) =~= s@);
    }
    let ghost old_pieces = pieces.deep_view();
    pieces.push(cur);
    proof {
        assert(pieces.deep_view() =~~= old_pieces.push(cur@));
    }
    pieces
}

// ---------------------------------------------------------------------------
// Trimming
// ---------------------------------------------------------------------------

/// The trimmed cells of a `|`-delimited table line.
pub open spec fn spec_cells_of_line(line: Seq<char>) -> Seq<Seq<char>> {
    spec_split(line, '|').map_values(|c: Seq<char>| spec_trim(c))
}

pub open spec fn spec_trim_start(s: Seq<char>) -> Seq<char>
    decreases s.len(),
{
    if s.len() > 0 && is_space(s[0]) {
        spec_trim_start(s.drop_first())
    } else {
        s
    }
}

pub open spec fn spec_trim_end(s: Seq<char>) -> Seq<char>
    decreases s.len(),
{
    if s.len() > 0 && is_space(s.last()) {
        spec_trim_end(s.drop_last())
    } else {
        s
    }
}

/// `s` with ASCII whitespace removed from both ends.
pub open spec fn spec_trim(s: Seq<char>) -> Seq<char> {
    spec_trim_end(spec_trim_start(s))
}

fn is_space_exec(c: char) -> (r: bool)
    ensures
        r == is_space(c),
{
    c == ' ' || c == '\t' || c == '\r'
}

pub fn trim_chars(s: &Vec<char>) -> (r: Vec<char>)
    ensures
        r@ == spec_trim(s@),
{
    let mut lo: usize = 0;
    proof {
        assert(s@.skip(0int) =~= s@);
    }
    while lo < s.len() && is_space_exec(s[lo])
        invariant
            lo <= s.len(),
            spec_trim_start(s@) == spec_trim_start(s@.skip(lo as int)),
        decreases s.len() - lo,
    {
        proof {
            assert(s@.skip(lo as int)[0] == s@[lo as int]);
            assert(s@.skip(lo as int).drop_first() =~= s@.skip(lo + 1int));
        }
        lo = lo + 1;
    }
    proof {
        if lo < s.len() {
            assert(s@.skip(lo as int)[0] == s@[lo as int]);
        }
        assert(spec_trim_start(s@) == s@.skip(lo as int));
    }
    let ghost t0 = s@.skip(lo as int);
    let mut hi: usize = s.len();
    proof {
        assert(t0.take(s@.len() - lo as int) =~= t0);
    }
    while hi > lo && is_space_exec(s[hi - 1])
        invariant
            lo <= hi <= s.len(),
            spec_trim_start(s@) == t0,
            t0 == s@.skip(lo as int),
            spec_trim_end(t0) == spec_trim_end(t0.take(hi as int - lo as int)),
        decreases hi,
    {
        proof {
            let t = t0.take(hi as int - lo as int);
            assert(t.last() == s@[hi - 1int]);
            assert(t.drop_last() =~= t0.take(hi as int - 1 - lo as int));
        }
        hi = hi - 1;
    }
    let ghost t = t0.take(hi as int - lo as int);
    proof {
        if hi > lo {
            assert(t.last() == s@[hi - 1int]);
        }
        assert(spec_trim(s@) == t);
    }
    let mut r: Vec<char> = Vec::new();
    let mut i: usize = lo;
    while i < hi
        invariant
            lo <= i <= hi <= s.len(),
            t == s@.skip(lo as int).take(hi as int - lo as int),
            r@ == s@.skip(lo as int).take(i as int - lo as int),
        decreases hi - i,
    {
        r.push(s[i]);
        proof {
            assert(r@ =~= s@.skip(lo as int).take(i + 1 - lo as int));
        }
        i = i + 1;
    }
    proof {
        assert(r@ == t);
    }
    r
}

// ---------------------------------------------------------------------------
// Lines
// ---------------------------------------------------------------------------

/// A piece with a trailing carriage return removed.
pub open spec fn strip_cr(l: Seq<char>) -> Seq<char> {
    if l.len() > 0 && l.last() == '\r' {
        l.drop_last()
    } else {
        l
    }
}

/// The lines of `s`: pieces between newlines, each with a trailing `\r`
/// dropped, and with no final empty line when `s` ends in a newline.
pub open spec fn spec_lines(s: Seq<char>) -> Seq<Seq<char>> {
    let p = spec_split(s, '\n');
    let q = if p.last().len() == 0 {
        p.drop_last()
    } else {
        p
    };
    q.map_values(|l: Seq<char>| strip_cr(l))
}

pub fn lines_of(s: &Vec<char>) -> (r: Vec<Vec<char>>)
    ensures
        r.deep_view() == spec_lines(s@),
{
    let mut pieces = split_chars(s, '\n');
    let ghost p = spec_split(s@, '\n');
    proof {
        lemma_split_nonempty(s@, '\n');
        assert(pieces.deep_view()[pieces@.len() - 1] == p.last());
    }
    let is_empty_last = pieces[pieces.len() - 1].len() == 0;
    if is_empty_last {
        let ghost before = pieces.deep_view();
        let _ = pieces.pop();
        proof {
            assert(pieces.deep_view() =~~= before.drop_last());
        }
    }
    let ghost q = if p.last().len() == 0 {
        p.drop_last()
    } else {
        p
    };
    proof {
        assert(pieces.deep_view() == q);
    }
    let mut r: Vec<Vec<char>> = Vec::new();
    let mut i: usize = 0;
    proof {
        assert(r.deep_view() =~~= q.take(0int).map_values(|l: Seq<char>| strip_cr(l)));
    }
    while i < pieces.len()
        invariant
            i <= pieces.len(),
            pieces.deep_view() == q,
            r.deep_view() == q.take(i as int).map_values(|l: Seq<char>| strip_cr(l)),
        decreases pieces.len() - i,
    {
        let ghost before = r.deep_view();
        let piece = &pieces[i];
        proof {
            assert(pieces.deep_view()[i as int] == q[i as int]);
            assert(piece@ =~= q[i as int]);
        }
        let stripped = strip_cr_exec(piece);
        r.push(stripped);
        proof {
            assert(r.deep_view() =~~= before.push(strip_cr(q[i as int])));
            assert(q.take(i + 1int).map_values(|l: Seq<char>| strip_cr(l)) =~~= before.push(
                strip_cr(q[i as int]),
            ));
        }
        i = i + 1;
    }
    proof {
        assert(q.take(q.len() as int) =~= q);
        assert(r.deep_view() =~~= spec_lines(s@));
    }
    r
}

fn strip_cr_exec(piece: &Vec<char>) -> (r: Vec<char>)
    ensures
        r@ == strip_cr(piece@),
{
    if piece.len() > 0 && piece[piece.len() - 1] == '\r' {
        let mut trimmed: Vec<char> = Vec::new();
        let mut j: usize = 0;
        while j < piece.len() - 1
            invariant
                piece@.len() > 0,
                j <= piece@.len() - 1,
                trimmed@ == piece@.take(j as int),
            decreases piece.len() - 1 - j,
        {
            trimmed.push(piece[j]);
            proof {
                assert(trimmed@ =~= piece@.take(j + 1int));
            }
            j = j + 1;
        }
        proof {
            assert(trimmed@ =~= strip_cr(piece@));
        }
        trimmed
    } else {
        let r = copy_chars(piece);
        r
    }
}

pub fn copy_chars(s: &Vec<char>) -> (r: Vec<char>)
    ensures
        r@ == s@,
{
    let mut r: Vec<char> = Vec::new();
    let mut i: usize = 0;
    while i < s.len()
        invariant
            i <= s.len(),
            r@ == s@.take(i as int),
        decreases s.len() - i,
    {
        r.push(s[i]);
        proof {
            assert(r@ =~= s@.take(i + 1int));
        }
        i = i + 1;
    }
    proof {
        assert(s@.take(s@.len() as int) =~= s@);
    }
    r
}

// ---------------------------------------------------------------------------
// Conversions between &str / String and Vec<char>
// ---------------------------------------------------------------------------

pub fn str_to_chars(s: &str) -> (r: Vec<char>)
    ensures
        r@ == s@,
{
    let n = s.unicode_len();
    let mut r: Vec<char> = Vec::new();
    let mut i: usize = 0;
    while i < n
        invariant
            i <= n,
            n == s@.len(),
            r@ == s@.take(i as int),
        decreases n - i,
    {
        r.push(s.get_char(i));
        proof {
            assert(r@ =~= s@.take(i + 1int));
        }
        i = i + 1;
    }
    proof {
        assert(s@.take(s@.len() as int) =~= s@);
    }
    r
}

/// Relies on `String`'s `FromIterator<char>` impl from std: collecting the
/// characters of a vector yields the string with exactly those characters.
#[verifier::external_body]
pub(crate) fn chars_to_string(v: &Vec<char>) -> (r: String)
    ensures
        r@ == v@,
{
    v.iter().collect()
}

/// Whether two character vectors hold the same characters.
pub fn chars_eq_vec(a: &Vec<char>, b: &Vec<char>) -> (r: bool)
    ensures
        r == (a@ == b@),
{
    if a.len() != b.len() {
        return false;
    }
    let mut i: usize = 0;
    while i < a.len()
        invariant
            i <= a.len(),
            a@.len() == b@.len(),
            forall|k: int| 0 <= k < i ==> a@[k] == b@[k],
        decreases a.len() - i,
    {
        if a[i] != b[i] {
            return false;
        }
        i = i + 1;
    }
    proof {
        assert(a@ =~= b@);
    }
    true
}

/// Whether the characters of `v` equal the characters of `s`.
pub fn chars_eq_str(v: &Vec<char>, s: &str) -> (r: bool)
    ensures
        r == (v@ == s@),
{
    let n = s.unicode_len();
    if v.len() != n {
        return false;
    }
    let mut i: usize = 0;
    while i < n
        invariant
            i <= n,
            n == s@.len(),
            v@.len() == n,
            forall|k: int| 0 <= k < i ==> v@[k] == s@[k],
        decreases n - i,
    {
        if v[i] != s.get_char(i) {
            return false;
        }
        i = i + 1;
    }
    proof {
        assert(v@ =~= s@);
    }
    true
}

/// Whether `s` is among the strings of `keys`.
pub fn contains_string(keys: &Vec<String>, s: &String) -> (r: bool)
    ensures
        r == keys.deep_view().contains(s@),
{
    let mut i: usize = 0;
    while i < keys.len()
        invariant
            i <= keys.len(),
            forall|m: int| 0 <= m < i ==> keys.deep_view()[m] != s@,
        decreases keys.len() - i,
    {
        if keys[i] == *s {
            proof {
                assert(keys.deep_view()[i as int] =~= keys@[i as int]@);
                assert(keys.deep_view()[i as int] == s@);
            }
            return true;
        }
        proof {
            assert(keys.deep_view()[i as int] =~= keys@[i as int]@);
        }
        i = i + 1;
    }
    proof {
        assert_by_contradiction!(!keys.deep_view().contains(s@), {
            let w = choose|w: int| 0 <= w < keys.deep_view().len() && keys.deep_view()[w] == s@;
            assert(keys.deep_view()[w] != s@);
        });
    }
    false
}

// ---------------------------------------------------------------------------
// Decimal numbers
// ---------------------------------------------------------------------------

/// The value of a digit string, most significant digit first.
pub open spec fn digits_val(s: Seq<char>) -> int
    decreases s.len(),
{
    if s.len() == 0 {
        0
    } else {
        digits_val(s.drop_last()) * 10 + digit_val(s.last())
    }
}

pub proof fn lemma_digits_val_nonneg(s: Seq<char>)
    requires
        all_digits(s),
    ensures
        digits_val(s) >= 0,
    decreases s.len(),
{
    if s.len() > 0 {
        assert forall|i: int| 0 <= i < s.drop_last().len() implies is_digit(
            #[trigger] s.drop_last()[i],
        ) by {
            assert(s.drop_last()[i] == s[i]);
            assert(is_digit(s[i]));
        }
        lemma_digits_val_nonneg(s.drop_last());
        assert(is_digit(s.last()));
    }
}

/// The canonical decimal digits of a non-negative number.
pub open spec fn spec_digits_of(n: int) -> Seq<char>
    decreases n,
{
    if n < 10 {
        seq![digit_char(if n < 0 { 0 } else { n })]
    } else {
        spec_digits_of(n / 10).push(digit_char(n % 10))
    }
}

pub open spec fn digit_char(d: int) -> char {
    if d == 0 {
        '0'
    } else if d == 1 {
        '1'
    } else if d == 2 {
        '2'
    } else if d == 3 {
        '3'
    } else if d == 4 {
        '4'
    } else if d == 5 {
        '5'
    } else if d == 6 {
        '6'
    } else if d == 7 {
        '7'
    } else if d == 8 {
        '8'
    } else {
        '9'
    }
}

fn digit_char_exec(d: u32) -> (c: char)
    requires
        d < 10,
    ensures
        c == digit_char(d as int),
{
    if d == 0 {
        '0'
    } else if d == 1 {
        '1'
    } else if d == 2 {
        '2'
    } else if d == 3 {
        '3'
    } else if d == 4 {
        '4'
    } else if d == 5 {
        '5'
    } else if d == 6 {
        '6'
    } else if d == 7 {
        '7'
    } else if d == 8 {
        '8'
    } else {
        '9'
    }
}

pub fn u32_digits(n: u32) -> (r: Vec<char>)
    ensures
        r@ == spec_digits_of(n as int),
    decreases n,
{
    if n < 10 {
        let mut v: Vec<char> = Vec::new();
        v.push(digit_char_exec(n));
        proof {
            assert(v@ =~= spec_digits_of(n as int));
        }
        v
    } else {
        let mut v = u32_digits(n / 10);
        v.push(digit_char_exec(n % 10));
        v
    }
}

/// The decimal rendering of `n` as a string.
pub fn u32_string(n: u32) -> (r: String)
    ensures
        r@ == spec_digits_of(n as int),
{
    let digits = u32_digits(n);
    chars_to_string(&digits)
}

pub proof fn lemma_digits_val_monotone(s: Seq<char>, i: int)
    requires
        all_digits(s),
        0 <= i <= s.len(),
    ensures
        digits_val(s.take(i)) <= digits_val(s),
    decreases s.len() - i,
{
    if i < s.len() {
        let t = s.take(i + 1);
        assert(t.drop_last() =~= s.take(i));
        assert(t.last() == s[i]);
        assert forall|k: int| 0 <= k < s.take(i).len() implies is_digit(
            #[trigger] s.take(i)[k],
        ) by {
            assert(s.take(i)[k] == s[k]);
            assert(is_digit(s[k]));
        }
        lemma_digits_val_nonneg(s.take(i));
        assert(is_digit(s[i]));
        assert(digits_val(t) == digits_val(s.take(i)) * 10 + digit_val(s[i]));
        lemma_digits_val_monotone(s, i + 1);
    } else {
        assert(s.take(i) =~= s);
    }
}

/// Parses a non-empty digit string into a `u32`.
/// `None` exactly when the string is empty, holds a non-digit, or the value
/// does not fit in a `u32`.
pub fn parse_u32(s: &Vec<char>) -> (r: Option<u32>)
    ensures
        match r {
            Some(n) => s@.len() > 0 && all_digits(s@) && n as int == digits_val(s@),
            None => s@.len() == 0 || !all_digits(s@) || digits_val(s@) > u32::MAX as int,
        },
{
    if s.len() == 0 {
        return None;
    }
    let mut acc: u64 = 0;
    let mut i: usize = 0;
    proof {
        assert(s@.take(0int) =~= Seq::<char>::empty());
    }
    while i < s.len()
        invariant
            i <= s.len(),
            s@.len() > 0,
            acc as int == digits_val(s@.take(i as int)),
            acc <= u32::MAX as u64,
            forall|k: int| 0 <= k < i ==> is_digit(#[trigger] s@[k]),
        decreases s.len() - i,
    {
        let c = s[i];
        let cv = c as u32;
        if cv < 48 || cv > 57 {
            proof {
                assert(!is_digit(s@[i as int]));
            }
            return None;
        }
        let d = (cv - 48) as u64;
        proof {
            assert(s@.take(i + 1int).drop_last() =~= s@.take(i as int));
            assert(s@.take(i + 1int).last() == s@[i as int]);
            assert(digit_val(s@[i as int]) == d as int);
        }
        acc = acc * 10 + d;
        proof {
            assert(acc as int == digits_val(s@.take(i + 1int)));
        }
        if acc > u32::MAX as u64 {
            proof {
                if all_digits(s@) {
                    lemma_digits_val_monotone(s@, i + 1int);
                }
            }
            return None;
        }
        i = i + 1;
    }
    proof {
        assert(s@.take(s@.len() as int) =~= s@);
    }
    Some(acc as u32)
}

// ---------------------------------------------------------------------------
// Lexicographic order on character sequences
// ---------------------------------------------------------------------------

/// `a` is at or before `b` in character-code lexicographic order.
pub open spec fn lex_leq(a: Seq<char>, b: Seq<char>) -> bool
    decreases a.len(),
{
    if a.len() == 0 {
        true
    } else if b.len() == 0 {
        false
    } else if (a[0] as u32) < (b[0] as u32) {
        true
    } else if (a[0] as u32) > (b[0] as u32) {
        false
    } else {
        lex_leq(a.drop_first(), b.drop_first())
    }
}

pub proof fn lemma_lex_total(a: Seq<char>, b: Seq<char>)
    ensures
        lex_leq(a, b) || lex_leq(b, a),
    decreases a.len(),
{
    if a.len() > 0 && b.len() > 0 && (a[0] as u32) == (b[0] as u32) {
        lemma_lex_total(a.drop_first(), b.drop_first());
    }
}

pub proof fn lemma_lex_trans(a: Seq<char>, b: Seq<char>, c: Seq<char>)
    requires
        lex_leq(a, b),
        lex_leq(b, c),
    ensures
        lex_leq(a, c),
    decreases a.len(),
{
    if a.len() > 0 && b.len() > 0 && c.len() > 0 {
        if (a[0] as u32) == (b[0] as u32) && (b[0] as u32) == (c[0] as u32) {
            lemma_lex_trans(a.drop_first(), b.drop_first(), c.drop_first());
        }
    }
}

/// Compares two strings in character-code lexicographic order.
pub fn str_lex_leq(a: &str, b: &str) -> (r: bool)
    ensures
        r == lex_leq(a@, b@),
{
    let na = a.unicode_len();
    let nb = b.unicode_len();
    let mut i: usize = 0;
    proof {
        assert(a@.skip(0int) =~= a@);
        assert(b@.skip(0int) =~= b@);
    }
    loop
        invariant
            i <= na,
            i <= nb,
            na == a@.len(),
            nb == b@.len(),
            lex_leq(a@, b@) == lex_leq(a@.skip(i as int), b@.skip(i as int)),
        decreases na - i,
    {
        let ghost sa = a@.skip(i as int);
        let ghost sb = b@.skip(i as int);
        if i >= na {
            proof {
                assert(sa.len() == 0);
            }
            return true;
        }
        if i >= nb {
            proof {
                assert(sa.len() > 0 && sb.len() == 0);
            }
            return false;
        }
        let ca = a.get_char(i) as u32;
        let cb = b.get_char(i) as u32;
        proof {
            assert(sa[0] == a@[i as int]);
            assert(sb[0] == b@[i as int]);
        }
        if ca < cb {
            return true;
        }
        if ca > cb {
            return false;
        }
        proof {
            assert(sa.drop_first() =~= a@.skip(i + 1int));
            assert(sb.drop_first() =~= b@.skip(i + 1int));
        }
        i = i + 1;
    }
}

} // verus!
