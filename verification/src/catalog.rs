use crate::text::{
    chars_eq_str, chars_eq_vec, chars_to_string, lines_of, spec_cells_of_line, spec_lines,
    split_chars, str_to_chars, trim_chars,
};
use crate::Error;
use vstd::prelude::*;

verus! {

/// One checkable condition understood by the linter, as discovered from its
/// rule catalog.  Immutable once parsed.
#[derive(Debug)]
pub struct Rule {
    pub identifier: String,
    pub opt_in: bool,
    pub correctable: bool,
    pub kind: String,
    pub analyzer: bool,
    pub uses_sourcekit: bool,
}

/// The mathematical model of a `Rule`.
pub struct RuleV {
    pub identifier: Seq<char>,
    pub opt_in: bool,
    pub correctable: bool,
    pub kind: Seq<char>,
    pub analyzer: bool,
    pub uses_sourcekit: bool,
}

impl View for Rule {
    type V = RuleV;

    open spec fn view(&self) -> RuleV {
        RuleV {
            identifier: self.identifier@,
            opt_in: self.opt_in,
            correctable: self.correctable,
            kind: self.kind@,
            analyzer: self.analyzer,
            uses_sourcekit: self.uses_sourcekit,
        }
    }
}

pub open spec fn rules_view(v: Seq<Rule>) -> Seq<RuleV> {
    v.map_values(|r: Rule| r@)
}

/// Positions of the six required columns within the header row.
pub struct HeaderIdx {
    pub identifier: int,
    pub opt_in: int,
    pub correctable: int,
    pub kind: int,
    pub analyzer: int,
    pub uses_sourcekit: int,
}

/// The position of the first cell equal to `name`, if any.
pub open spec fn find_cell(cells: Seq<Seq<char>>, name: Seq<char>) -> Option<int>
    decreases cells.len(),
{
    if cells.len() == 0 {
        None
    } else if cells[0] == name {
        Some(0)
    } else {
        match find_cell(cells.drop_first(), name) {
            Some(i) => Some(i + 1),
            None => None,
        }
    }
}

pub proof fn lemma_find_cell(cells: Seq<Seq<char>>, name: Seq<char>)
    ensures
        match find_cell(cells, name) {
            Some(i) => 0 <= i < cells.len() && cells[i] == name && (forall|m: int|
                0 <= m < i ==> cells[m] != name),
            None => forall|m: int| 0 <= m < cells.len() ==> cells[m] != name,
        },
    decreases cells.len(),
{
    if cells.len() > 0 && cells[0] != name {
        lemma_find_cell(cells.drop_first(), name);
        match find_cell(cells.drop_first(), name) {
            Some(i) => {
                assert(cells.drop_first()[i] == cells[i + 1]);
                assert forall|m: int| 0 <= m < i + 1 implies cells[m] != name by {
                    if m >= 1 {
                        assert(cells.drop_first()[m - 1] == cells[m]);
                    }
                }
            },
            None => {
                assert forall|m: int| 0 <= m < cells.len() implies cells[m] != name by {
                    if m >= 1 {
                        assert(cells.drop_first()[m - 1] == cells[m]);
                    }
                }
            },
        }
    }
}

/// The six required column names, resolved against the header cells.
pub open spec fn spec_header_idx(header: Seq<Seq<char>>) -> Option<HeaderIdx> {
    let identifier = find_cell(header, "identifier"@);
    let opt_in = find_cell(header, "opt-in"@);
    let correctable = find_cell(header, "correctable"@);
    let kind = find_cell(header, "kind"@);
    let analyzer = find_cell(header, "analyzer"@);
    let uses_sourcekit = find_cell(header, "uses sourcekit"@);
    if identifier is Some && opt_in is Some && correctable is Some && kind is Some && analyzer
        is Some && uses_sourcekit is Some {
        Some(
            HeaderIdx {
                identifier: identifier->0,
                opt_in: opt_in->0,
                correctable: correctable->0,
                kind: kind->0,
                analyzer: analyzer->0,
                uses_sourcekit: uses_sourcekit->0,
            },
        )
    } else {
        None
    }
}

/// The data rows: the lines before the first one equal to the border row.
pub open spec fn take_until(rows: Seq<Seq<char>>, border: Seq<char>) -> Seq<Seq<char>>
    decreases rows.len(),
{
    if rows.len() == 0 {
        rows
    } else if rows[0] == border {
        Seq::empty()
    } else {
        seq![rows[0]] + take_until(rows.drop_first(), border)
    }
}

/// The rule read off one data row: fields by column position, booleans by
/// the `"yes"`-means-true convention.
pub open spec fn spec_rule_of_row(cells: Seq<Seq<char>>, idx: HeaderIdx) -> RuleV {
    RuleV {
        identifier: cells[idx.identifier],
        opt_in: cells[idx.opt_in] == "yes"@,
        correctable: cells[idx.correctable] == "yes"@,
        kind: cells[idx.kind],
        analyzer: cells[idx.analyzer] == "yes"@,
        uses_sourcekit: cells[idx.uses_sourcekit] == "yes"@,
    }
}

/// Parses every data row, failing when a row has fewer cells than the
/// header implies.
pub open spec fn spec_parse_rows(rows: Seq<Seq<char>>, idx: HeaderIdx, ncols: int) -> Option<
    Seq<RuleV>,
>
    decreases rows.len(),
{
    if rows.len() == 0 {
        Some(Seq::empty())
    } else {
        let cells = spec_cells_of_line(rows.last());
        if cells.len() < ncols {
            None
        } else {
            match spec_parse_rows(rows.drop_last(), idx, ncols) {
                Some(rs) => Some(rs.push(spec_rule_of_row(cells, idx))),
                None => None,
            }
        }
    }
}

pub proof fn lemma_parse_rows_bad(rows: Seq<Seq<char>>, k: int, idx: HeaderIdx, ncols: int)
    requires
        0 <= k < rows.len(),
        spec_cells_of_line(rows[k]).len() < ncols,
    ensures
        spec_parse_rows(rows, idx, ncols) is None,
    decreases rows.len(),
{
    if k < rows.len() - 1 {
        lemma_parse_rows_bad(rows.drop_last(), k, idx, ncols);
    }
}

/// The lines of the catalog table.
pub open spec fn spec_table_lines(table: Seq<char>) -> Seq<Seq<char>> {
    spec_lines(table)
}

/// The data rows of the catalog table: everything after the border row that
/// follows the header, up to the matching closing border.
pub open spec fn spec_table_rows(table: Seq<char>) -> Seq<Seq<char>> {
    let ls = spec_table_lines(table);
    take_until(ls.skip(3), ls[2])
}

/// The whole catalog parse: line 1 is the header (line 0 is the top
/// border), line 2 a border row, then data rows until the closing border.
pub open spec fn spec_parse_rules(table: Seq<char>) -> Option<Seq<RuleV>> {
    let ls = spec_table_lines(table);
    if ls.len() < 3 {
        None
    } else {
        let header = spec_cells_of_line(ls[1]);
        match spec_header_idx(header) {
            None => None,
            Some(idx) => spec_parse_rows(spec_table_rows(table), idx, header.len() as int),
        }
    }
}

/// The trimmed cells of one table line, split on the `|` delimiter.
pub fn cells_of(line: &Vec<char>) -> (r: Vec<Vec<char>>)
    ensures
        r.deep_view() == spec_cells_of_line(line@),
{
    let pieces = split_chars(line, '|');
    let mut r: Vec<Vec<char>> = Vec::new();
    let mut i: usize = 0;
    let ghost p = pieces.deep_view();
    proof {
        assert(r.deep_view() =~~= p.take(0int).map_values(
            |c: Seq<char>| crate::text::spec_trim(c),
        ));
    }
    while i < pieces.len()
        invariant
            i <= pieces.len(),
            pieces.deep_view() == p,
            r.deep_view() == p.take(i as int).map_values(|c: Seq<char>| crate::text::spec_trim(c)),
        decreases pieces.len() - i,
    {
        let ghost before = r.deep_view();
        let cell = trim_chars(&pieces[i]);
        proof {
            assert(pieces@[i as int].deep_view() == p[i as int]);
            assert(pieces@[i as int]@ =~= p[i as int]);
        }
        r.push(cell);
        proof {
            assert(r.deep_view() =~~= before.push(crate::text::spec_trim(p[i as int])));
            assert(p.take(i + 1int).map_values(|c: Seq<char>| crate::text::spec_trim(c)) =~~= before
                .push(crate::text::spec_trim(p[i as int])));
        }
        i = i + 1;
    }
    proof {
        assert(p.take(p.len() as int) =~= p);
        assert(r.deep_view() =~~= spec_cells_of_line(line@));
    }
    r
}

/// The position of the first cell equal to `name`, searched left to right.
fn find_cell_exec(cells: &Vec<Vec<char>>, name: &str) -> (r: Option<usize>)
    ensures
        match r {
            Some(i) => find_cell(cells.deep_view(), name@) == Some(i as int),
            None => find_cell(cells.deep_view(), name@) is None,
        },
{
    let mut i: usize = 0;
    while i < cells.len()
        invariant
            i <= cells.len(),
            forall|m: int| 0 <= m < i ==> cells.deep_view()[m] != name@,
        decreases cells.len() - i,
    {
        if chars_eq_str(&cells[i], name) {
            proof {
                assert(cells.deep_view()[i as int] =~= cells@[i as int]@);
                lemma_find_cell(cells.deep_view(), name@);
            }
            return Some(i);
        }
        proof {
            assert(cells.deep_view()[i as int] =~= cells@[i as int]@);
        }
        i = i + 1;
    }
    proof {
        lemma_find_cell(cells.deep_view(), name@);
    }
    None
}

/// Parses the linter's rule catalog table.
///
/// The table is bordered; its second line is a header of `|`-separated
/// column names, and each data row supplies one rule, booleans written
/// `yes` for true and anything else for false.  Fails exactly when the
/// table has no header region, a required column name is missing, or a
/// data row has fewer cells than the header.
pub fn parse_rules(table: &str) -> (r: Result<Vec<Rule>, Error>)
    ensures
        match r {
            Ok(v) => spec_parse_rules(table@) == Some(rules_view(v@)),
            Err(e) => spec_parse_rules(table@) is None && e == Error::CatalogParse,
        },
{
    let chars = str_to_chars(table);
    let ls = lines_of(&chars);
    let ghost lsv = spec_table_lines(table@);
    proof {
        assert(ls.deep_view() == lsv);
    }
    if ls.len() < 3 {
        return Err(Error::CatalogParse);
    }
    proof {
        assert(ls.deep_view()[1int] =~= ls@[1int]@);
    }
    let header_cells = cells_of(&ls[1]);
    let ghost header = spec_cells_of_line(lsv[1]);
    proof {
        assert(ls@[1int]@ == lsv[1]);
        assert(header_cells.deep_view() == header);
    }
    let i_id = find_cell_exec(&header_cells, "identifier");
    let i_opt = find_cell_exec(&header_cells, "opt-in");
    let i_cor = find_cell_exec(&header_cells, "correctable");
    let i_kind = find_cell_exec(&header_cells, "kind");
    let i_ana = find_cell_exec(&header_cells, "analyzer");
    let i_sk = find_cell_exec(&header_cells, "uses sourcekit");
    let (i_id, i_opt, i_cor, i_kind, i_ana, i_sk) = match (i_id, i_opt, i_cor, i_kind, i_ana, i_sk) {
        (Some(a), Some(b), Some(c), Some(d), Some(e), Some(f)) => (a, b, c, d, e, f),
        _ => {
            return Err(Error::CatalogParse);
        },
    };
    let ghost idx = spec_header_idx(header)->0;
    proof {
        assert(spec_header_idx(header) is Some);
        assert(idx.identifier == i_id as int);
        assert(idx.opt_in == i_opt as int);
        assert(idx.correctable == i_cor as int);
        assert(idx.kind == i_kind as int);
        assert(idx.analyzer == i_ana as int);
        assert(idx.uses_sourcekit == i_sk as int);
        lemma_find_cell(header, "identifier"@);
        lemma_find_cell(header, "opt-in"@);
        lemma_find_cell(header, "correctable"@);
        lemma_find_cell(header, "kind"@);
        lemma_find_cell(header, "analyzer"@);
        lemma_find_cell(header, "uses sourcekit"@);
    }
    let ncols = header_cells.len();
    let ghost all_rows = spec_table_rows(table@);
    let border = &ls[2];
    proof {
        assert(ls.deep_view()[2int] =~= ls@[2int]@);
        assert(border@ == lsv[2]);
    }
    let mut rules: Vec<Rule> = Vec::new();
    let ghost mut rows_done: Seq<Seq<char>> = Seq::empty();
    let mut j: usize = 3;
    let mut done = false;
    proof {
        assert(rules_view(rules@) =~= Seq::<RuleV>::empty());
        assert(all_rows =~~= rows_done + take_until(lsv.skip(3int), lsv[2]));
    }
    while j < ls.len() && !done
        invariant
            3 <= j <= ls.len(),
            ls.deep_view() == lsv,
            lsv == spec_table_lines(table@),
            lsv.len() >= 3,
            border@ == lsv[2],
            ncols == spec_cells_of_line(lsv[1]).len(),
            spec_header_idx(spec_cells_of_line(lsv[1])) == Some(idx),
            idx.identifier == i_id as int,
            idx.opt_in == i_opt as int,
            idx.correctable == i_cor as int,
            idx.kind == i_kind as int,
            idx.analyzer == i_ana as int,
            idx.uses_sourcekit == i_sk as int,
            0 <= idx.identifier < ncols,
            0 <= idx.opt_in < ncols,
            0 <= idx.correctable < ncols,
            0 <= idx.kind < ncols,
            0 <= idx.analyzer < ncols,
            0 <= idx.uses_sourcekit < ncols,
            all_rows == spec_table_rows(table@),
            done ==> all_rows == rows_done,
            !done ==> all_rows == rows_done + take_until(lsv.skip(j as int), lsv[2]),
            spec_parse_rows(rows_done, idx, ncols as int) == Some(rules_view(rules@)),
        decreases ls.len() - j + (if done {
            0int
        } else {
            1int
        }),
    {
        let row = &ls[j];
        proof {
            assert(ls.deep_view()[j as int] =~= ls@[j as int]@);
            assert(ls@[j as int]@ == lsv[j as int]);
            assert(lsv.skip(j as int)[0] == lsv[j as int]);
            assert(lsv.skip(j as int).drop_first() =~= lsv.skip(j + 1int));
        }
        if chars_eq_vec(row, border) {
            done = true;
            proof {
                assert(row@ == lsv[j as int]);
                assert(take_until(lsv.skip(j as int), lsv[2]) =~~= Seq::<Seq<char>>::empty());
                assert(all_rows =~~= rows_done);
            }
            continue ;
        }
        proof {
            assert(take_until(lsv.skip(j as int), lsv[2]) == seq![lsv[j as int]] + take_until(
                lsv.skip(j + 1int),
                lsv[2],
            ));
        }
        let cells = cells_of(row);
        let ghost cellsv = spec_cells_of_line(lsv[j as int]);
        proof {
            assert(cells.deep_view() == cellsv);
        }
        if cells.len() < ncols {
            proof {
                let k = rows_done.len() as int;
                assert(all_rows[k] == lsv[j as int]);
                lemma_parse_rows_bad(all_rows, k, idx, ncols as int);
            }
            return Err(Error::CatalogParse);
        }
        let identifier = chars_to_string(&cells[i_id]);
        let opt_in = chars_eq_str(&cells[i_opt], "yes");
        let correctable = chars_eq_str(&cells[i_cor], "yes");
        let kind = chars_to_string(&cells[i_kind]);
        let analyzer = chars_eq_str(&cells[i_ana], "yes");
        let uses_sourcekit = chars_eq_str(&cells[i_sk], "yes");
        let rule = Rule { identifier, opt_in, correctable, kind, analyzer, uses_sourcekit };
        proof {
            assert(cells@[i_id as int]@ =~= cellsv[idx.identifier]);
            assert(cells@[i_opt as int]@ =~= cellsv[idx.opt_in]);
            assert(cells@[i_cor as int]@ =~= cellsv[idx.correctable]);
            assert(cells@[i_kind as int]@ =~= cellsv[idx.kind]);
            assert(cells@[i_ana as int]@ =~= cellsv[idx.analyzer]);
            assert(cells@[i_sk as int]@ =~= cellsv[idx.uses_sourcekit]);
        }
        let ghost old_rules = rules_view(rules@);
        let ghost old_rows = rows_done;
        rules.push(rule);
        proof {
            rows_done = rows_done.push(lsv[j as int]);
            assert(rows_done.drop_last() =~~= old_rows);
            assert(rows_done.last() == lsv[j as int]);
            assert(rule@ == spec_rule_of_row(cellsv, idx));
            assert(rules_view(rules@) =~= old_rules.push(rule@));
            assert(spec_parse_rows(rows_done, idx, ncols as int) == Some(rules_view(rules@)));
            assert(all_rows =~~= rows_done + take_until(lsv.skip(j + 1int), lsv[2]));
        }
        j = j + 1;
    }
    proof {
        if !done {
            assert(lsv.skip(j as int) =~~= Seq::<Seq<char>>::empty());
            assert(take_until(lsv.skip(j as int), lsv[2]) =~~= Seq::<Seq<char>>::empty());
            assert(all_rows =~~= rows_done);
        }
        assert(all_rows == rows_done);
        assert(spec_parse_rules(table@) == Some(rules_view(rules@)));
    }
    Ok(rules)
}

/// Every rule of a parsed catalog takes its fields from its own data row:
/// the identifier and kind are the trimmed cells under those columns, and
/// each boolean column is true exactly when its cell is `yes`.  In
/// particular, when no identifier cell is empty, no rule's identifier is
/// empty.
pub proof fn lemma_catalog_yes_convention(table: Seq<char>, rules: Seq<RuleV>, idx: HeaderIdx)
    requires
        spec_parse_rules(table) == Some(rules),
        spec_header_idx(spec_cells_of_line(spec_table_lines(table)[1])) == Some(idx),
    ensures
        rules.len() == spec_table_rows(table).len(),
        forall|k: int|
            0 <= k < rules.len() ==> #[trigger] rules[k] == spec_rule_of_row(
                spec_cells_of_line(spec_table_rows(table)[k]),
                idx,
            ),
        forall|k: int|
            0 <= k < rules.len() && spec_cells_of_line(spec_table_rows(table)[k])[idx.identifier].len()
                > 0 ==> #[trigger] rules[k].identifier.len() > 0,
{
    let ncols = spec_cells_of_line(spec_table_lines(table)[1]).len() as int;
    lemma_parse_rows_fields(spec_table_rows(table), idx, ncols, rules);
}

pub proof fn lemma_parse_rows_fields(
    rows: Seq<Seq<char>>,
    idx: HeaderIdx,
    ncols: int,
    rules: Seq<RuleV>,
)
    requires
        spec_parse_rows(rows, idx, ncols) == Some(rules),
    ensures
        rules.len() == rows.len(),
        forall|k: int|
            0 <= k < rows.len() ==> #[trigger] rules[k] == spec_rule_of_row(
                spec_cells_of_line(rows[k]),
                idx,
            ),
    decreases rows.len(),
{
    if rows.len() > 0 {
        let prev = spec_parse_rows(rows.drop_last(), idx, ncols)->0;
        lemma_parse_rows_fields(rows.drop_last(), idx, ncols, prev);
        assert(forall|k: int|
            0 <= k < rows.len() - 1 ==> #[trigger] rows.drop_last()[k] == rows[k]);
    }
}

} // verus!
