use crate::diagnostics::{diags_view, Diagnostic, DiagnosticV};
use crate::text::{lemma_lex_total, lemma_lex_trans, lex_leq, str_lex_leq};
use vstd::prelude::*;
use vstd::seq_lib::lemma_multiset_commutative;

verus! {

// ---------------------------------------------------------------------------
// Counting violations per rule identifier
// ---------------------------------------------------------------------------

/// The model of a violation tally: identifier and count pairs.
pub open spec fn counts_view(v: Seq<(String, u32)>) -> Seq<(Seq<char>, int)> {
    v.map_values(|p: (String, u32)| (p.0@, p.1 as int))
}

/// How many diagnostics reference `id`.
pub open spec fn occurrences(ds: Seq<DiagnosticV>, id: Seq<char>) -> int
    decreases ds.len(),
{
    if ds.len() == 0 {
        0
    } else {
        occurrences(ds.drop_last(), id) + if ds.last().rule_id == id {
            1int
        } else {
            0int
        }
    }
}

pub proof fn lemma_occurrences_bound(ds: Seq<DiagnosticV>, id: Seq<char>)
    ensures
        0 <= occurrences(ds, id) <= ds.len(),
    decreases ds.len(),
{
    if ds.len() > 0 {
        lemma_occurrences_bound(ds.drop_last(), id);
    }
}

/// The count recorded for `id`, zero when `id` is absent.
pub open spec fn lookup(m: Seq<(Seq<char>, int)>, id: Seq<char>) -> int
    decreases m.len(),
{
    if m.len() == 0 {
        0
    } else if m.last().0 == id {
        m.last().1
    } else {
        lookup(m.drop_last(), id)
    }
}

/// One diagnostic added to a tally: the entry for `id` is incremented in
/// place, or a fresh entry with count one is added.  Where in the tally an
/// entry sits carries no meaning: the report sorts the tally, and
/// generation looks counts up by identifier.
pub open spec fn upsert(m: Seq<(Seq<char>, int)>, id: Seq<char>) -> Seq<(Seq<char>, int)>
    decreases m.len(),
{
    if m.len() == 0 {
        seq![(id, 1int)]
    } else if m.last().0 == id {
        m.drop_last().push((id, m.last().1 + 1))
    } else {
        upsert(m.drop_last(), id).push(m.last())
    }
}

/// The tally of a diagnostic sequence: one entry per distinct identifier.
pub open spec fn spec_aggregate(ds: Seq<DiagnosticV>) -> Seq<(Seq<char>, int)>
    decreases ds.len(),
{
    if ds.len() == 0 {
        Seq::empty()
    } else {
        upsert(spec_aggregate(ds.drop_last()), ds.last().rule_id)
    }
}

pub proof fn lemma_upsert_lookup(m: Seq<(Seq<char>, int)>, id: Seq<char>)
    ensures
        forall|x: Seq<char>|
            #[trigger] lookup(upsert(m, id), x) == lookup(m, x) + if x == id {
                1int
            } else {
                0int
            },
    decreases m.len(),
{
    if m.len() > 0 && m.last().0 != id {
        lemma_upsert_lookup(m.drop_last(), id);
        assert forall|x: Seq<char>|
            #[trigger] lookup(upsert(m, id), x) == lookup(m, x) + if x == id {
                1int
            } else {
                0int
            } by {
            let u = upsert(m.drop_last(), id).push(m.last());
            assert(u.drop_last() =~= upsert(m.drop_last(), id));
            assert(u.last() == m.last());
            assert(lookup(upsert(m.drop_last(), id), x) == lookup(m.drop_last(), x) + if x == id {
                1int
            } else {
                0int
            });
            assert(upsert(m, id) == u);
        }
    } else if m.len() > 0 {
        assert forall|x: Seq<char>|
            #[trigger] lookup(upsert(m, id), x) == lookup(m, x) + if x == id {
                1int
            } else {
                0int
            } by {
            let u = m.drop_last().push((id, m.last().1 + 1));
            assert(u.drop_last() =~= m.drop_last());
            assert(u.last() == (id, m.last().1 + 1));
            assert(upsert(m, id) == u);
        }
    } else {
        assert forall|x: Seq<char>|
            #[trigger] lookup(upsert(m, id), x) == lookup(m, x) + if x == id {
                1int
            } else {
                0int
            } by {
            let u = seq![(id, 1int)];
            assert(upsert(m, id) == u);
            assert(u.drop_last() =~= Seq::<(Seq<char>, int)>::empty());
            assert(u.last() == (id, 1int));
            if x != id {
                assert(lookup(u, x) == lookup(u.drop_last(), x));
            }
        }
    }
}

/// The aggregated count of every identifier equals the number of
/// diagnostics that reference it; an identifier no diagnostic references
/// has count zero.
pub proof fn lemma_aggregate_counts(ds: Seq<DiagnosticV>)
    ensures
        forall|x: Seq<char>| #[trigger] lookup(spec_aggregate(ds), x) == occurrences(ds, x),
    decreases ds.len(),
{
    if ds.len() > 0 {
        lemma_aggregate_counts(ds.drop_last());
        lemma_upsert_lookup(spec_aggregate(ds.drop_last()), ds.last().rule_id);
    }
}

/// Appends one diagnostic's identifier to a tally.
fn upsert_exec(m: Vec<(String, u32)>, id: &String) -> (r: Vec<(String, u32)>)
    requires
        lookup(counts_view(m@), id@) < u32::MAX as int,
    ensures
        counts_view(r@) == upsert(counts_view(m@), id@),
    decreases m@.len(),
{
    let ghost mv = counts_view(m@);
    let mut m = m;
    match m.pop() {
        None => {
            m.push((id.clone(), 1));
            proof {
                assert(counts_view(m@) =~= seq![(id@, 1int)]);
                assert(mv.len() == 0);
            }
            m
        },
        Some(last) => {
            proof {
                assert(counts_view(m@) =~= mv.drop_last());
                assert(mv.last() == (last.0@, last.1 as int));
            }
            if last.0 == *id {
                let ghost before = counts_view(m@);
                m.push((last.0, last.1 + 1));
                proof {
                    assert(counts_view(m@) =~= before.push((id@, mv.last().1 + 1)));
                    assert(counts_view(m@) =~= upsert(mv, id@));
                }
                m
            } else {
                let mut r = upsert_exec(m, id);
                let ghost before = counts_view(r@);
                r.push(last);
                proof {
                    assert(counts_view(r@) =~= before.push(mv.last()));
                    assert(counts_view(r@) =~= upsert(mv, id@));
                }
                r
            }
        },
    }
}

/// Tallies the diagnostics by rule identifier.
pub fn count_violations(diagnostics: &Vec<Diagnostic>) -> (r: Vec<(String, u32)>)
    requires
        diagnostics@.len() <= u32::MAX as int,
    ensures
        counts_view(r@) == spec_aggregate(diags_view(diagnostics@)),
{
    let ghost dv = diags_view(diagnostics@);
    let mut out: Vec<(String, u32)> = Vec::new();
    let mut i: usize = 0;
    proof {
        assert(counts_view(out@) =~= Seq::<(Seq<char>, int)>::empty());
        assert(dv.take(0int) =~= Seq::<DiagnosticV>::empty());
    }
    while i < diagnostics.len()
        invariant
            i <= diagnostics.len(),
            dv == diags_view(diagnostics@),
            dv.len() <= u32::MAX as int,
            counts_view(out@) == spec_aggregate(dv.take(i as int)),
        decreases diagnostics.len() - i,
    {
        let d = &diagnostics[i];
        proof {
            assert(dv[i as int] == diagnostics@[i as int]@);
            assert(dv.take(i + 1int).drop_last() =~= dv.take(i as int));
            assert(dv.take(i + 1int).last() == dv[i as int]);
            lemma_aggregate_counts(dv.take(i as int));
            lemma_occurrences_bound(dv.take(i as int), d.rule_id@);
        }
        out = upsert_exec(out, &d.rule_id);
        i = i + 1;
    }
    proof {
        assert(dv.take(dv.len() as int) =~= dv);
    }
    out
}

// ---------------------------------------------------------------------------
// Ordering the tally for the report
// ---------------------------------------------------------------------------

/// The report order: count descending, identifier ascending on ties.
pub open spec fn pair_leq(a: (Seq<char>, int), b: (Seq<char>, int)) -> bool {
    a.1 > b.1 || (a.1 == b.1 && lex_leq(a.0, b.0))
}

pub open spec fn sorted_pairs(m: Seq<(Seq<char>, int)>) -> bool {
    forall|i: int, j: int| 0 <= i < j < m.len() ==> pair_leq(#[trigger] m[i], #[trigger] m[j])
}

pub proof fn lemma_pair_total(a: (Seq<char>, int), b: (Seq<char>, int))
    ensures
        pair_leq(a, b) || pair_leq(b, a),
{
    lemma_lex_total(a.0, b.0);
}

pub proof fn lemma_pair_trans(a: (Seq<char>, int), b: (Seq<char>, int), c: (Seq<char>, int))
    requires
        pair_leq(a, b),
        pair_leq(b, c),
    ensures
        pair_leq(a, c),
{
    if a.1 == b.1 && b.1 == c.1 {
        lemma_lex_trans(a.0, b.0, c.0);
    }
}

/// `p` placed before the first element it precedes.
pub open spec fn insert_sorted(m: Seq<(Seq<char>, int)>, p: (Seq<char>, int)) -> Seq<
    (Seq<char>, int),
>
    decreases m.len(),
{
    if m.len() == 0 {
        seq![p]
    } else if pair_leq(p, m[0]) {
        seq![p] + m
    } else {
        seq![m[0]] + insert_sorted(m.drop_first(), p)
    }
}

/// Insertion sort of the tally under `pair_leq`.
pub open spec fn sort_pairs(m: Seq<(Seq<char>, int)>) -> Seq<(Seq<char>, int)>
    decreases m.len(),
{
    if m.len() == 0 {
        m
    } else {
        insert_sorted(sort_pairs(m.drop_last()), m.last())
    }
}

pub proof fn lemma_insert_sorted_multiset(m: Seq<(Seq<char>, int)>, p: (Seq<char>, int))
    ensures
        insert_sorted(m, p).to_multiset() == m.to_multiset().insert(p),
        insert_sorted(m, p).len() == m.len() + 1,
    decreases m.len(),
{
    broadcast use vstd::seq_lib::group_to_multiset_ensures;

    if m.len() == 0 {
        assert(seq![p] =~= Seq::<(Seq<char>, int)>::empty().push(p));
        assert(seq![p].to_multiset() =~= m.to_multiset().insert(p));
    } else if pair_leq(p, m[0]) {
        lemma_multiset_commutative(seq![p], m);
        assert(seq![p] =~= Seq::<(Seq<char>, int)>::empty().push(p));
        assert((seq![p] + m).to_multiset() =~= m.to_multiset().insert(p));
    } else {
        lemma_insert_sorted_multiset(m.drop_first(), p);
        lemma_multiset_commutative(seq![m[0]], insert_sorted(m.drop_first(), p));
        lemma_multiset_commutative(seq![m[0]], m.drop_first());
        assert(seq![m[0]] + m.drop_first() =~= m);
        assert(seq![m[0]] =~= Seq::<(Seq<char>, int)>::empty().push(m[0]));
        assert((seq![m[0]] + insert_sorted(m.drop_first(), p)).to_multiset() =~= m.to_multiset()
            .insert(p));
    }
}

pub proof fn lemma_insert_sorted_sorted(m: Seq<(Seq<char>, int)>, p: (Seq<char>, int))
    requires
        sorted_pairs(m),
    ensures
        sorted_pairs(insert_sorted(m, p)),
    decreases m.len(),
{
    if m.len() == 0 {
    } else if pair_leq(p, m[0]) {
        let r = seq![p] + m;
        assert forall|i: int, j: int| 0 <= i < j < r.len() implies pair_leq(r[i], r[j]) by {
            if i == 0 {
                if j == 1 {
                    assert(r[j] == m[0]);
                } else {
                    assert(r[j] == m[j - 1]);
                    assert(pair_leq(m[0], m[j - 1]));
                    lemma_pair_trans(p, m[0], m[j - 1]);
                }
            } else {
                assert(r[i] == m[i - 1] && r[j] == m[j - 1]);
            }
        }
    } else {
        assert(forall|i: int, j: int|
            0 <= i < j < m.drop_first().len() ==> pair_leq(
                #[trigger] m.drop_first()[i],
                #[trigger] m.drop_first()[j],
            ));
        lemma_insert_sorted_sorted(m.drop_first(), p);
        lemma_insert_sorted_multiset(m.drop_first(), p);
        lemma_pair_total(p, m[0]);
        let rest = insert_sorted(m.drop_first(), p);
        let r = seq![m[0]] + rest;
        assert forall|i: int, j: int| 0 <= i < j < r.len() implies pair_leq(r[i], r[j]) by {
            if i == 0 {
                assert(r[j] == rest[j - 1]);
                lemma_insert_sorted_element(m.drop_first(), p, j - 1);
                if rest[j - 1] == p {
                    assert(pair_leq(m[0], p));
                } else {
                    assert(m.drop_first().contains(rest[j - 1]));
                    let k = choose|k: int|
                        0 <= k < m.drop_first().len() && m.drop_first()[k] == rest[j - 1];
                    assert(m.drop_first()[k] == m[k + 1]);
                    assert(pair_leq(m[0], m[k + 1]));
                }
            } else {
                assert(r[i] == rest[i - 1] && r[j] == rest[j - 1]);
            }
        }
    }
}

/// Every element of an insertion is the new element or one of the old.
pub proof fn lemma_insert_sorted_element(m: Seq<(Seq<char>, int)>, p: (Seq<char>, int), i: int)
    requires
        0 <= i < insert_sorted(m, p).len(),
    ensures
        insert_sorted(m, p)[i] == p || m.contains(insert_sorted(m, p)[i]),
    decreases m.len(),
{
    if m.len() == 0 {
    } else if pair_leq(p, m[0]) {
        if i > 0 {
            assert((seq![p] + m)[i] == m[i - 1]);
        }
    } else {
        if i == 0 {
            assert((seq![m[0]] + insert_sorted(m.drop_first(), p))[0] == m[0]);
        } else {
            lemma_insert_sorted_element(m.drop_first(), p, i - 1);
            let x = insert_sorted(m.drop_first(), p)[i - 1];
            assert((seq![m[0]] + insert_sorted(m.drop_first(), p))[i] == x);
            if x != p {
                let k = choose|k: int|
                    0 <= k < m.drop_first().len() && m.drop_first()[k] == x;
                assert(m.drop_first()[k] == m[k + 1]);
                assert(m.contains(x));
            }
        }
    }
}

/// The report order law: the sorted tally is ordered by count descending,
/// ties broken by identifier ascending, and holds exactly the entries of
/// the unsorted tally.
pub proof fn lemma_sort_pairs(m: Seq<(Seq<char>, int)>)
    ensures
        sorted_pairs(sort_pairs(m)),
        sort_pairs(m).to_multiset() == m.to_multiset(),
        sort_pairs(m).len() == m.len(),
    decreases m.len(),
{
    broadcast use vstd::seq_lib::group_to_multiset_ensures;

    if m.len() > 0 {
        lemma_sort_pairs(m.drop_last());
        lemma_insert_sorted_sorted(sort_pairs(m.drop_last()), m.last());
        lemma_insert_sorted_multiset(sort_pairs(m.drop_last()), m.last());
        assert(m.drop_last().push(m.last()) =~= m);
        assert(m.drop_last().push(m.last()).to_multiset() == m.drop_last().to_multiset().insert(
            m.last(),
        ));
    }
}

/// Inserts one tally entry into an already sorted vector.
fn insert_sorted_exec(m: Vec<(String, u32)>, p: (String, u32)) -> (r: Vec<(String, u32)>)
    ensures
        counts_view(r@) == insert_sorted(counts_view(m@), (p.0@, p.1 as int)),
    decreases m@.len(),
{
    let ghost mv = counts_view(m@);
    let ghost pv = (p.0@, p.1 as int);
    let mut m = m;
    if m.len() == 0 {
        m.push(p);
        proof {
            assert(counts_view(m@) =~= seq![pv]);
        }
        return m;
    }
    let le = if p.1 > m[0].1 {
        true
    } else if p.1 == m[0].1 {
        str_lex_leq(p.0.as_str(), m[0].0.as_str())
    } else {
        false
    };
    proof {
        assert(mv[0] == (m@[0int].0@, m@[0int].1 as int));
        assert(le == pair_leq(pv, mv[0]));
    }
    if le {
        m.insert(0, p);
        proof {
            assert(counts_view(m@) =~= seq![pv] + mv);
        }
        m
    } else {
        let first = m.remove(0);
        proof {
            assert(counts_view(m@) =~= mv.drop_first());
        }
        let mut r = insert_sorted_exec(m, p);
        let ghost before = counts_view(r@);
        r.insert(0, first);
        proof {
            assert(mv[0] == (first.0@, first.1 as int));
            assert(counts_view(r@) =~= seq![mv[0]] + before);
        }
        r
    }
}

/// Sorts a tally for the report: count descending, identifier ascending
/// on equal counts.
pub fn sort_counts(counts: Vec<(String, u32)>) -> (r: Vec<(String, u32)>)
    ensures
        counts_view(r@) == sort_pairs(counts_view(counts@)),
{
    let ghost cv = counts_view(counts@);
    let mut out: Vec<(String, u32)> = Vec::new();
    let mut k: usize = 0;
    proof {
        assert(counts_view(out@) =~= sort_pairs(cv.take(0int)));
    }
    while k < counts.len()
        invariant
            k <= counts.len(),
            cv == counts_view(counts@),
            counts_view(out@) == sort_pairs(cv.take(k as int)),
        decreases counts.len() - k,
    {
        let p = (counts[k].0.clone(), counts[k].1);
        proof {
            assert(cv[k as int] == (counts@[k as int].0@, counts@[k as int].1 as int));
            assert((p.0@, p.1 as int) == cv[k as int]);
            assert(cv.take(k + 1int).drop_last() =~= cv.take(k as int));
            assert(cv.take(k + 1int).last() == cv[k as int]);
        }
        out = insert_sorted_exec(out, p);
        k = k + 1;
    }
    proof {
        assert(cv.take(cv.len() as int) =~= cv);
    }
    out
}

} // verus!
