use crate::text::{
    all_digits, chars_to_string, digits_val, is_digit, lines_of, spec_lines, str_to_chars,
};
use crate::Error;
use vstd::prelude::*;

verus! {

/// One reported violation: a location, a severity, a message and the
/// identifier of the rule that fired, exactly as printed by the linter.
#[derive(Debug)]
pub struct Diagnostic {
    pub file: String,
    pub line: u32,
    pub character: u32,
    pub severity: String,
    pub reason: String,
    pub rule_id: String,
}

/// The mathematical model of a `Diagnostic`.
pub struct DiagnosticV {
    pub file: Seq<char>,
    pub line: u32,
    pub character: u32,
    pub severity: Seq<char>,
    pub reason: Seq<char>,
    pub rule_id: Seq<char>,
}

impl View for Diagnostic {
    type V = DiagnosticV;

    open spec fn view(&self) -> DiagnosticV {
        DiagnosticV {
            file: self.file@,
            line: self.line,
            character: self.character,
            severity: self.severity@,
            reason: self.reason@,
            rule_id: self.rule_id@,
        }
    }
}

pub open spec fn diags_view(v: Seq<Diagnostic>) -> Seq<DiagnosticV> {
    v.map_values(|d: Diagnostic| d@)
}

// ---------------------------------------------------------------------------
// The line grammar
//
// A diagnostic line reads
//     <path>:<line>:<column>: <severity>: <message> (<rule identifier>)
// with severity `warning` or `error`.  Path, message and identifier are
// non-empty and may themselves contain delimiters, so the grammar is
// disambiguated greedily: the identifier starts at the last ` (` of the
// line, and the path is the longest prefix that leaves a well-formed
// remainder.  Line and column must fit in a `u32`.
// ---------------------------------------------------------------------------

/// The first position at or after `i` holding a non-digit (or the end).
pub open spec fn digit_run_end(s: Seq<char>, i: int) -> int
    decreases s.len() - i,
{
    if i < s.len() && is_digit(s[i]) {
        digit_run_end(s, i + 1)
    } else {
        i
    }
}

pub proof fn lemma_digit_run(s: Seq<char>, i: int)
    requires
        0 <= i <= s.len(),
    ensures
        i <= digit_run_end(s, i) <= s.len(),
        forall|k: int| i <= k < digit_run_end(s, i) ==> is_digit(#[trigger] s[k]),
        digit_run_end(s, i) < s.len() ==> !is_digit(s[digit_run_end(s, i)]),
    decreases s.len() - i,
{
    if i < s.len() && is_digit(s[i]) {
        lemma_digit_run(s, i + 1);
    }
}

/// Whether `w` occurs in `s` starting at `i`.
pub open spec fn matches_at(s: Seq<char>, i: int, w: Seq<char>) -> bool {
    0 <= i && i + w.len() <= s.len() && s.subrange(i, i + w.len()) == w
}

/// The spans of the numeric and severity fields when the tail of `head`
/// beginning at position `p` is well-formed: `head[p]` is a colon, two
/// non-empty digit runs follow, then `: `, a severity word, `: `, and a
/// non-empty message.
pub struct TailParts {
    pub e1: int,
    pub e2: int,
    pub sev_len: int,
}

pub open spec fn tail_at(head: Seq<char>, p: int) -> Option<TailParts> {
    if !(1 <= p < head.len() && head[p] == ':') {
        None
    } else {
        let e1 = digit_run_end(head, p + 1);
        if !(e1 > p + 1 && e1 < head.len() && head[e1] == ':') {
            None
        } else {
            let e2 = digit_run_end(head, e1 + 1);
            if !(e2 > e1 + 1 && e2 < head.len() && head[e2] == ':') {
                None
            } else if !(e2 + 1 < head.len() && head[e2 + 1] == ' ') {
                None
            } else {
                let sev_len = if matches_at(head, e2 + 2, "warning"@) {
                    7int
                } else if matches_at(head, e2 + 2, "error"@) {
                    5int
                } else {
                    0int
                };
                if sev_len == 0 {
                    None
                } else {
                    let c = e2 + 2 + sev_len;
                    if c + 1 < head.len() && head[c] == ':' && head[c + 1] == ' ' && c + 2
                        < head.len() {
                        Some(TailParts { e1, e2, sev_len })
                    } else {
                        None
                    }
                }
            }
        }
    }
}

/// The largest position `q <= p` whose tail is well-formed: the longest
/// path prefix wins, as with a greedy match.
pub open spec fn last_valid_p(head: Seq<char>, p: int) -> Option<int>
    decreases p,
{
    if p < 1 {
        None
    } else if tail_at(head, p) is Some {
        Some(p)
    } else {
        last_valid_p(head, p - 1)
    }
}

/// The largest position `q <= j` where ` (` begins with at least one
/// character between it and the end of `t`: the rule identifier starts at
/// the last such marker.
pub open spec fn last_marker(t: Seq<char>, j: int) -> Option<int>
    decreases j + 1,
{
    if j < 0 {
        None
    } else if j + 2 < t.len() && t[j] == ' ' && t[j + 1] == '(' {
        Some(j)
    } else {
        last_marker(t, j - 1)
    }
}

/// Parses one diagnostic line, or `None` when it does not match the
/// grammar above.
pub open spec fn spec_parse_diag(s: Seq<char>) -> Option<DiagnosticV> {
    if s.len() == 0 || s.last() != ')' {
        None
    } else {
        let t = s.drop_last();
        match last_marker(t, t.len() - 3) {
            None => None,
            Some(j) => {
                let head = t.take(j);
                match last_valid_p(head, head.len() - 1) {
                    None => None,
                    Some(p) => {
                        let parts = tail_at(head, p)->0;
                        let d1 = head.subrange(p + 1, parts.e1);
                        let d2 = head.subrange(parts.e1 + 1, parts.e2);
                        if digits_val(d1) <= u32::MAX as int && digits_val(d2) <= u32::MAX as int {
                            Some(
                                DiagnosticV {
                                    file: head.take(p),
                                    line: digits_val(d1) as u32,
                                    character: digits_val(d2) as u32,
                                    severity: head.subrange(
                                        parts.e2 + 2,
                                        parts.e2 + 2 + parts.sev_len,
                                    ),
                                    reason: head.skip(parts.e2 + 2 + parts.sev_len + 2),
                                    rule_id: t.skip(j + 2),
                                },
                            )
                        } else {
                            None
                        }
                    },
                }
            },
        }
    }
}

// ---------------------------------------------------------------------------
// Executable parser
// ---------------------------------------------------------------------------

/// A copy of `v[a..b]`.
pub fn sub_chars(v: &Vec<char>, a: usize, b: usize) -> (r: Vec<char>)
    requires
        a <= b <= v@.len(),
    ensures
        r@ == v@.subrange(a as int, b as int),
{
    let mut r: Vec<char> = Vec::new();
    let mut i: usize = a;
    proof {
        assert(r@ =~= v@.subrange(a as int, a as int));
    }
    while i < b
        invariant
            a <= i <= b <= v@.len(),
            r@ == v@.subrange(a as int, i as int),
        decreases b - i,
    {
        r.push(v[i]);
        proof {
            assert(r@ =~= v@.subrange(a as int, i + 1int));
        }
        i = i + 1;
    }
    r
}

fn is_digit_exec(c: char) -> (r: bool)
    ensures
        r == is_digit(c),
{
    let u = c as u32;
    48 <= u && u <= 57
}

fn digit_run_exec(v: &Vec<char>, hlen: usize, i: usize) -> (r: usize)
    requires
        i <= hlen <= v@.len(),
    ensures
        r as int == digit_run_end(v@.take(hlen as int), i as int),
        i <= r <= hlen,
{
    let ghost head = v@.take(hlen as int);
    let mut k = i;
    while k < hlen && is_digit_exec(v[k])
        invariant
            i <= k <= hlen <= v@.len(),
            head == v@.take(hlen as int),
            digit_run_end(head, i as int) == digit_run_end(head, k as int),
        decreases hlen - k,
    {
        proof {
            assert(head[k as int] == v@[k as int]);
            assert(is_digit(head[k as int]));
            assert(digit_run_end(head, k as int) == digit_run_end(head, k + 1int));
        }
        k = k + 1;
    }
    proof {
        if k < hlen {
            assert(head[k as int] == v@[k as int]);
        }
        assert(digit_run_end(head, k as int) == k as int);
    }
    k
}

fn match_at_exec(v: &Vec<char>, hlen: usize, i: usize, w: &str) -> (r: bool)
    requires
        i <= hlen <= v@.len(),
    ensures
        r == matches_at(v@.take(hlen as int), i as int, w@),
{
    let ghost head = v@.take(hlen as int);
    let wn = w.unicode_len();
    if wn > hlen - i {
        return false;
    }
    let mut k: usize = 0;
    while k < wn
        invariant
            k <= wn,
            wn == w@.len(),
            i + wn <= hlen <= v@.len(),
            head == v@.take(hlen as int),
            forall|m: int| 0 <= m < k ==> head[i + m] == w@[m],
        decreases wn - k,
    {
        if v[i + k] != w.get_char(k) {
            proof {
                assert(head[i + k as int] == v@[i + k as int]);
                assert(head.subrange(i as int, i + w@.len())[k as int] != w@[k as int]);
            }
            return false;
        }
        proof {
            assert(head[i + k as int] == v@[i + k as int]);
        }
        k = k + 1;
    }
    proof {
        assert(head.subrange(i as int, i + w@.len()) =~= w@);
    }
    true
}

/// Checks the tail beginning at `p`, handing back the spans on success.
fn tail_at_exec(v: &Vec<char>, hlen: usize, p: usize) -> (r: Option<(usize, usize, usize)>)
    requires
        hlen <= v@.len(),
        1 <= p < hlen,
    ensures
        match r {
            Some(spans) => tail_at(v@.take(hlen as int), p as int) == Some(
                TailParts { e1: spans.0 as int, e2: spans.1 as int, sev_len: spans.2 as int },
            ),
            None => tail_at(v@.take(hlen as int), p as int) is None,
        },
{
    let ghost head = v@.take(hlen as int);
    proof {
        reveal_strlit("warning");
        reveal_strlit("error");
        assert(head[p as int] == v@[p as int]);
    }
    if v[p] != ':' {
        return None;
    }
    let e1 = digit_run_exec(v, hlen, p + 1);
    proof {
        if e1 < hlen {
            assert(head[e1 as int] == v@[e1 as int]);
        }
    }
    if !(e1 > p + 1 && e1 < hlen && v[e1] == ':') {
        return None;
    }
    let e2 = digit_run_exec(v, hlen, e1 + 1);
    proof {
        if e2 < hlen {
            assert(head[e2 as int] == v@[e2 as int]);
        }
    }
    if !(e2 > e1 + 1 && e2 < hlen && v[e2] == ':') {
        return None;
    }
    proof {
        if e2 + 1 < hlen {
            assert(head[e2 + 1int] == v@[e2 + 1int]);
        }
    }
    if !(e2 + 1 < hlen && v[e2 + 1] == ' ') {
        return None;
    }
    let sev_len: usize = if match_at_exec(v, hlen, e2 + 2, "warning") {
        7
    } else if match_at_exec(v, hlen, e2 + 2, "error") {
        5
    } else {
        proof {
            assert(tail_at(head, p as int) is None);
        }
        return None;
    };
    let c = e2 + 2 + sev_len;
    proof {
        if c + 1 < hlen {
            assert(head[c as int] == v@[c as int]);
            assert(head[c + 1int] == v@[c + 1int]);
        }
    }
    if hlen - c > 2 && v[c] == ':' && v[c + 1] == ' ' {
        Some((e1, e2, sev_len))
    } else {
        None
    }
}

/// The last ` (` marker position, searched right to left.
fn find_last_marker_exec(v: &Vec<char>, tlen: usize) -> (r: Option<usize>)
    requires
        3 <= tlen <= v@.len(),
    ensures
        match r {
            Some(j) => last_marker(v@.take(tlen as int), tlen - 3) == Some(j as int) && j <= tlen
                - 3,
            None => last_marker(v@.take(tlen as int), tlen - 3) is None,
        },
{
    let ghost t = v@.take(tlen as int);
    let mut j = tlen - 3;
    loop
        invariant
            j <= tlen - 3,
            tlen <= v@.len(),
            3 <= tlen,
            t == v@.take(tlen as int),
            last_marker(t, tlen - 3) == last_marker(t, j as int),
        decreases j,
    {
        proof {
            assert(t[j as int] == v@[j as int]);
            assert(t[j + 1int] == v@[j + 1int]);
        }
        if v[j] == ' ' && v[j + 1] == '(' {
            return Some(j);
        }
        if j == 0 {
            proof {
                assert(last_marker(t, 0int) == last_marker(t, -1));
            }
            return None;
        }
        j = j - 1;
    }
}

/// The largest well-formed tail position, searched right to left.
fn find_last_valid_exec(v: &Vec<char>, hlen: usize) -> (r: Option<(usize, (usize, usize, usize))>)
    requires
        2 <= hlen <= v@.len(),
    ensures
        match r {
            Some(ps) => {
                &&& last_valid_p(v@.take(hlen as int), hlen - 1) == Some(ps.0 as int)
                &&& 1 <= ps.0 < hlen
                &&& tail_at(v@.take(hlen as int), ps.0 as int) == Some(
                    TailParts {
                        e1: ps.1.0 as int,
                        e2: ps.1.1 as int,
                        sev_len: ps.1.2 as int,
                    },
                )
            },
            None => last_valid_p(v@.take(hlen as int), hlen - 1) is None,
        },
{
    let ghost head = v@.take(hlen as int);
    let mut q = hlen - 1;
    loop
        invariant
            1 <= q < hlen,
            hlen <= v@.len(),
            head == v@.take(hlen as int),
            last_valid_p(head, hlen - 1) == last_valid_p(head, q as int),
        decreases q,
    {
        match tail_at_exec(v, hlen, q) {
            Some(spans) => {
                return Some((q, spans));
            },
            None => {
                if q == 1 {
                    proof {
                        assert(last_valid_p(head, 1int) == last_valid_p(head, 0int));
                    }
                    return None;
                }
                q = q - 1;
            },
        }
    }
}

/// Parses one line of linter output into a `Diagnostic`.
///
/// Fails, rather than panicking, on any line that does not match the
/// grammar, including one whose line or column overflows a `u32`.
#[verifier::rlimit(100)]
pub fn parse_diagnostic(line: &str) -> (r: Result<Diagnostic, Error>)
    ensures
        match r {
            Ok(d) => spec_parse_diag(line@) == Some(d@),
            Err(e) => spec_parse_diag(line@) is None && e == Error::DiagnosticParse,
        },
{
    proof {
        reveal_strlit("warning");
        reveal_strlit("error");
    }
    let v = str_to_chars(line);
    let n = v.len();
    if n == 0 || v[n - 1] != ')' {
        return Err(Error::DiagnosticParse);
    }
    let tlen = n - 1;
    let ghost t = line@.drop_last();
    proof {
        assert(t =~= v@.take(tlen as int));
        assert(line@.last() == v@[n - 1int]);
    }
    if tlen < 3 {
        return Err(Error::DiagnosticParse);
    }
    let marker = match find_last_marker_exec(&v, tlen) {
        Some(j) => j,
        None => {
            return Err(Error::DiagnosticParse);
        },
    };
    let ghost jm = marker as int;
    let hlen = marker;
    let ghost head = t.take(jm);
    proof {
        assert(head =~= v@.take(hlen as int));
    }
    if hlen < 2 {
        proof {
            assert(last_valid_p(head, head.len() - 1) is None);
        }
        return Err(Error::DiagnosticParse);
    }
    let (p, spans) = match find_last_valid_exec(&v, hlen) {
        Some(ps) => ps,
        None => {
            return Err(Error::DiagnosticParse);
        },
    };
    let (e1, e2, sev_len) = spans;
    let ghost parts = TailParts { e1: e1 as int, e2: e2 as int, sev_len: sev_len as int };
    proof {
        assert(last_valid_p(head, head.len() - 1) == Some(p as int));
        assert(tail_at(head, p as int) == Some(parts));
    }
    let d1 = sub_chars(&v, p + 1, e1);
    let d2 = sub_chars(&v, e1 + 1, e2);
    proof {
        assert(d1@ =~= head.subrange(p + 1int, e1 as int));
        assert(d2@ =~= head.subrange(e1 + 1int, e2 as int));
        lemma_digit_run(head, p + 1int);
        lemma_digit_run(head, e1 + 1int);
        assert(all_digits(d1@));
        assert(all_digits(d2@));
    }
    let line_no = match crate::text::parse_u32(&d1) {
        Some(x) => x,
        None => {
            return Err(Error::DiagnosticParse);
        },
    };
    let char_no = match crate::text::parse_u32(&d2) {
        Some(x) => x,
        None => {
            return Err(Error::DiagnosticParse);
        },
    };
    let c = e2 + 2 + sev_len;
    let file_chars = sub_chars(&v, 0, p);
    let reason_chars = sub_chars(&v, c + 2, hlen);
    let id_chars = sub_chars(&v, marker + 2, tlen);
    let severity = if sev_len == 7 {
        String::from_str("warning")
    } else {
        String::from_str("error")
    };
    proof {
        assert(file_chars@ =~= head.take(p as int));
        assert(reason_chars@ =~= head.skip(c as int + 2));
        assert(id_chars@ =~= t.skip(jm + 2));
        if sev_len == 7 {
            assert(matches_at(head, e2 + 2int, "warning"@));
            assert(severity@ =~= head.subrange(parts.e2 + 2, parts.e2 + 2 + parts.sev_len));
        } else {
            assert(matches_at(head, e2 + 2int, "error"@));
            assert(severity@ =~= head.subrange(parts.e2 + 2, parts.e2 + 2 + parts.sev_len));
        }
    }
    let d = Diagnostic {
        file: chars_to_string(&file_chars),
        line: line_no,
        character: char_no,
        severity,
        reason: chars_to_string(&reason_chars),
        rule_id: chars_to_string(&id_chars),
    };
    proof {
        assert(d@ == spec_parse_diag(line@)->0);
    }
    Ok(d)
}

// ---------------------------------------------------------------------------
// Parsing a whole output
// ---------------------------------------------------------------------------

/// Parses every line, failing when any line fails.
pub open spec fn spec_parse_all(ls: Seq<Seq<char>>) -> Option<Seq<DiagnosticV>>
    decreases ls.len(),
{
    if ls.len() == 0 {
        Some(Seq::empty())
    } else {
        match spec_parse_diag(ls.last()) {
            None => None,
            Some(d) => match spec_parse_all(ls.drop_last()) {
                None => None,
                Some(ds) => Some(ds.push(d)),
            },
        }
    }
}

pub proof fn lemma_parse_all_bad(ls: Seq<Seq<char>>, k: int)
    requires
        0 <= k < ls.len(),
        spec_parse_diag(ls[k]) is None,
    ensures
        spec_parse_all(ls) is None,
    decreases ls.len(),
{
    if k < ls.len() - 1 {
        lemma_parse_all_bad(ls.drop_last(), k);
    }
}

/// Parses a whole lint run's output: one diagnostic per line.
pub fn parse_diagnostics(output: &str) -> (r: Result<Vec<Diagnostic>, Error>)
    ensures
        match r {
            Ok(v) => spec_parse_all(spec_lines(output@)) == Some(diags_view(v@)),
            Err(e) => spec_parse_all(spec_lines(output@)) is None && e == Error::DiagnosticParse,
        },
{
    let chars = str_to_chars(output);
    let ls = lines_of(&chars);
    let ghost lsv = spec_lines(output@);
    proof {
        assert(ls.deep_view() == lsv);
    }
    let mut out: Vec<Diagnostic> = Vec::new();
    let mut i: usize = 0;
    proof {
        assert(diags_view(out@) =~= Seq::<DiagnosticV>::empty());
        assert(lsv.take(0int) =~= Seq::<Seq<char>>::empty());
    }
    while i < ls.len()
        invariant
            i <= ls.len(),
            ls.deep_view() == lsv,
            lsv == spec_lines(output@),
            spec_parse_all(lsv.take(i as int)) == Some(diags_view(out@)),
        decreases ls.len() - i,
    {
        proof {
            assert(ls.deep_view()[i as int] =~= ls@[i as int]@);
        }
        let line_str = chars_to_string(&ls[i]);
        let ghost before = diags_view(out@);
        match parse_diagnostic(line_str.as_str()) {
            Ok(d) => {
                out.push(d);
                proof {
                    assert(lsv.take(i + 1int).drop_last() =~= lsv.take(i as int));
                    assert(lsv.take(i + 1int).last() == lsv[i as int]);
                    assert(diags_view(out@) =~= before.push(d@));
                }
            },
            Err(_) => {
                proof {
                    lemma_parse_all_bad(lsv, i as int);
                }
                return Err(Error::DiagnosticParse);
            },
        }
        i = i + 1;
    }
    proof {
        assert(lsv.take(lsv.len() as int) =~= lsv);
    }
    Ok(out)
}

// ---------------------------------------------------------------------------
// The round-trip law
// ---------------------------------------------------------------------------

pub proof fn lemma_last_marker_props(t: Seq<char>, j: int)
    requires
        j < t.len(),
    ensures
        match last_marker(t, j) {
            Some(m) => 0 <= m && m + 2 < t.len() && t[m] == ' ' && t[m + 1] == '(',
            None => true,
        },
    decreases j + 1,
{
    if j >= 0 && !(j + 2 < t.len() && t[j] == ' ' && t[j + 1] == '(') {
        lemma_last_marker_props(t, j - 1);
    }
}

pub proof fn lemma_last_valid_props(head: Seq<char>, p: int)
    requires
        p < head.len(),
    ensures
        match last_valid_p(head, p) {
            Some(q) => 1 <= q < head.len() && tail_at(head, q) is Some,
            None => true,
        },
    decreases p,
{
    if p >= 1 && tail_at(head, p) is None {
        lemma_last_valid_props(head, p - 1);
    }
}

/// Parsing round-trips: a line that parses is exactly its parts put back
/// together — path, line digits, column digits, severity, message and rule
/// identifier, joined by the grammar's delimiters.  All parts are
/// non-empty and the severity is `warning` or `error`.
#[verifier::rlimit(100)]
pub proof fn lemma_diag_round_trip(s: Seq<char>, d: DiagnosticV)
    requires
        spec_parse_diag(s) == Some(d),
    ensures
        exists|ds1: Seq<char>, ds2: Seq<char>|
            {
                &&& all_digits(ds1)
                &&& ds1.len() > 0
                &&& all_digits(ds2)
                &&& ds2.len() > 0
                &&& digits_val(ds1) == d.line as int
                &&& digits_val(ds2) == d.character as int
                &&& s == d.file + ":"@ + ds1 + ":"@ + ds2 + ": "@ + d.severity + ": "@ + d.reason
                    + " ("@ + d.rule_id + ")"@
            },
        d.file.len() > 0,
        d.reason.len() > 0,
        d.rule_id.len() > 0,
        d.severity == "warning"@ || d.severity == "error"@,
{
    reveal_strlit(":");
    reveal_strlit(": ");
    reveal_strlit(" (");
    reveal_strlit(")");
    reveal_strlit("warning");
    reveal_strlit("error");
    let t = s.drop_last();
    lemma_last_marker_props(t, t.len() - 3);
    let j = last_marker(t, t.len() - 3)->0;
    let head = t.take(j);
    lemma_last_valid_props(head, head.len() - 1);
    let p = last_valid_p(head, head.len() - 1)->0;
    let parts = tail_at(head, p)->0;
    let e1 = parts.e1;
    let e2 = parts.e2;
    let c = e2 + 2 + parts.sev_len;
    let ds1 = head.subrange(p + 1, e1);
    let ds2 = head.subrange(e1 + 1, e2);
    lemma_digit_run(head, p + 1);
    lemma_digit_run(head, e1 + 1);
    assert(all_digits(ds1));
    assert(all_digits(ds2));
    crate::text::lemma_digits_val_nonneg(ds1);
    crate::text::lemma_digits_val_nonneg(ds2);
    assert(d.severity == head.subrange(e2 + 2, c));
    if matches_at(head, e2 + 2, "warning"@) {
        assert(d.severity == "warning"@);
    } else {
        assert(matches_at(head, e2 + 2, "error"@));
        assert(d.severity == "error"@);
    }
    assert(head == d.file + ":"@ + ds1 + ":"@ + ds2 + ": "@ + d.severity + ": "@ + d.reason) by {
        assert(head =~= d.file + ":"@ + ds1 + ":"@ + ds2 + ": "@ + d.severity + ": "@ + d.reason);
    }
    assert(t == head + " ("@ + d.rule_id) by {
        assert(t =~= head + " ("@ + d.rule_id);
    }
    assert(s == t + ")"@) by {
        assert(s =~= t + ")"@);
    }
    assert(s == (head + " ("@ + d.rule_id) + ")"@);
    assert(s == d.file + ":"@ + ds1 + ":"@ + ds2 + ": "@ + d.severity + ": "@ + d.reason + " ("@
        + d.rule_id + ")"@);
    assert({
        &&& all_digits(ds1)
        &&& ds1.len() > 0
        &&& all_digits(ds2)
        &&& ds2.len() > 0
        &&& digits_val(ds1) == d.line as int
        &&& digits_val(ds2) == d.character as int
        &&& s == d.file + ":"@ + ds1 + ":"@ + ds2 + ": "@ + d.severity + ": "@ + d.reason + " ("@
            + d.rule_id + ")"@
    });
}

} // verus!
