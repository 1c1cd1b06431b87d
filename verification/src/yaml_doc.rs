use crate::text::contains_string;
use crate::Error;
use vstd::prelude::*;

verus! {

#[verifier::external_type_specification]
#[verifier::external_body]
pub struct ExYaml(yaml_rust2::Yaml);

/// What parsing a text as a configuration document yields: the top-level
/// entries, in document order, of its first YAML document when that
/// document is a mapping with scalar string keys, and `None` for any
/// other text.  The yaml parse is deterministic, so the result is a
/// function of the text alone.
pub uninterp spec fn yaml_entries_of(s: Seq<char>) -> Option<Seq<(String, yaml_rust2::Yaml)>>;

/// What serializing entries as one mapping document yields: the emitted
/// text, after the `---` document marker, or `None` when emission fails.
/// The yaml emitter is deterministic, so the result is a function of the
/// entries alone.
pub uninterp spec fn yaml_emitted(entries: Seq<(String, yaml_rust2::Yaml)>) -> Option<Seq<char>>;

/// The entries whose key is not among `keys`, in their original order.
pub open spec fn spec_strip(
    entries: Seq<(String, yaml_rust2::Yaml)>,
    keys: Seq<Seq<char>>,
) -> Seq<(String, yaml_rust2::Yaml)>
    decreases entries.len(),
{
    if entries.len() == 0 {
        entries
    } else {
        let r = spec_strip(entries.drop_last(), keys);
        if keys.contains(entries.last().0@) {
            r
        } else {
            r.push(entries.last())
        }
    }
}

/// Removes every entry whose key is among `keys`, keeping the rest in
/// order.
pub fn strip_entries(entries: Vec<(String, yaml_rust2::Yaml)>, keys: &Vec<String>) -> (r: Vec<
    (String, yaml_rust2::Yaml),
>)
    ensures
        r@ == spec_strip(entries@, keys.deep_view()),
    decreases entries@.len(),
{
    let ghost ev = entries@;
    let mut entries = entries;
    match entries.pop() {
        None => {
            proof {
                assert(entries@ =~= spec_strip(ev, keys.deep_view()));
            }
            entries
        },
        Some(last) => {
            proof {
                assert(entries@ =~= ev.drop_last());
                assert(ev.last() == last);
            }
            let keep = !contains_string(keys, &last.0);
            let mut r = strip_entries(entries, keys);
            if keep {
                r.push(last);
            }
            proof {
                assert(r@ =~= spec_strip(ev, keys.deep_view()));
            }
            r
        },
    }
}

/// Relies on yaml_rust2's `YamlLoader::load_from_str`: hands back the
/// top-level entries, in document order, of a text that parses as at least
/// one YAML document whose first document is a mapping with scalar string
/// keys — and `None` for any other text.
#[verifier::external_body]
fn yaml_top_entries(contents: &str) -> (r: Option<Vec<(String, yaml_rust2::Yaml)>>)
    ensures
        match r {
            Some(v) => yaml_entries_of(contents@) == Some(v@),
            None => yaml_entries_of(contents@) is None,
        },
{
    let docs = yaml_rust2::YamlLoader::load_from_str(contents).ok()?;
    let mut it = docs.into_iter();
    let doc = it.next()?;
    let hash = match doc {
        yaml_rust2::Yaml::Hash(h) => h,
        _ => return None,
    };
    let mut out = Vec::new();
    for (k, v) in hash {
        match k {
            yaml_rust2::Yaml::String(s) => out.push((s, v)),
            _ => return None,
        }
    }
    Some(out)
}

/// Relies on yaml_rust2's `YamlEmitter::dump`: serializes the entries as
/// one mapping document, in order, preceded by the `---` document marker.
/// Entries sharing a key collapse to the last one; the callers hand in
/// entries parsed from a mapping, whose keys are unique.
#[verifier::external_body]
fn yaml_emit_entries(entries: Vec<(String, yaml_rust2::Yaml)>) -> (r: Option<String>)
    ensures
        match r {
            Some(s) => yaml_emitted(entries@) == Some(s@),
            None => yaml_emitted(entries@) is None,
        },
{
    let hash: yaml_rust2::yaml::Hash = entries.into_iter().map(
        |(k, v)| (yaml_rust2::Yaml::String(k), v),
    ).collect();
    let doc = yaml_rust2::Yaml::Hash(hash);
    let mut out = String::new();
    let mut emitter = yaml_rust2::YamlEmitter::new(&mut out);
    match emitter.dump(&doc) {
        Ok(()) => Some(out),
        Err(_) => None,
    }
}

/// Re-serializes a configuration document with the given top-level keys
/// removed and every other top-level key preserved in order: the result
/// is the emission of exactly the stripped entry sequence of the parsed
/// document.  Fails with `ConfigDocument` exactly when the text is not a
/// single-document mapping with string keys, or emission fails.
pub fn modify_yaml(contents: &str, keys_to_strip: &Vec<String>) -> (r: Result<String, Error>)
    ensures
        match r {
            Ok(s) => yaml_entries_of(contents@) matches Some(entries) && yaml_emitted(
                spec_strip(entries, keys_to_strip.deep_view()),
            ) == Some(s@),
            Err(e) => e == Error::ConfigDocument && (yaml_entries_of(contents@) is None
                || yaml_emitted(
                spec_strip(yaml_entries_of(contents@)->0, keys_to_strip.deep_view()),
            ) is None),
        },
{
    match yaml_top_entries(contents) {
        None => Err(Error::ConfigDocument),
        Some(entries) => {
            let kept = strip_entries(entries, keys_to_strip);
            match yaml_emit_entries(kept) {
                None => Err(Error::ConfigDocument),
                Some(s) => Ok(s),
            }
        },
    }
}

/// Stripping keys that no entry carries changes nothing: a document whose
/// top-level keys avoid the stripped ones re-serializes from its own
/// entry sequence unchanged.
pub proof fn lemma_strip_absent_keys(
    entries: Seq<(String, yaml_rust2::Yaml)>,
    keys: Seq<Seq<char>>,
)
    requires
        forall|i: int| 0 <= i < entries.len() ==> !keys.contains(#[trigger] entries[i].0@),
    ensures
        spec_strip(entries, keys) == entries,
    decreases entries.len(),
{
    if entries.len() > 0 {
        assert(!keys.contains(entries[entries.len() - 1].0@));
        assert forall|i: int| 0 <= i < entries.drop_last().len() implies !keys.contains(
            #[trigger] entries.drop_last()[i].0@,
        ) by {
            assert(entries.drop_last()[i] == entries[i]);
        }
        lemma_strip_absent_keys(entries.drop_last(), keys);
        assert(spec_strip(entries, keys) =~= entries);
    }
}

} // verus!
