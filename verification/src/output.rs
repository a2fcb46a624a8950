//! What the registry writes: the index entries, the rules for when a file is
//! rewritten, and the `updated` timestamp of the index.
use vstd::prelude::*;
use crate::candidates::VersionEntry;
use crate::sorted_map::{SortedMap, pairs_to_map};
use crate::text::owned;

verus! {

/// The directory of the candidate files.
pub const CANDIDATES_DIR: &'static str = "candidates";

/// The format version of `index.json`.
pub const INDEX_VERSION: u32 = 1;

/// Entry in the top-level `index.json`.
#[derive(Debug, Clone)]
pub struct IndexEntry {
    pub name: String,
    pub latest: String,
    pub detail: String,
}

/// An index entry as character sequences.
pub struct IndexEntryView {
    pub name: Seq<char>,
    pub latest: Seq<char>,
    pub detail: Seq<char>,
}

impl View for IndexEntry {
    type V = IndexEntryView;

    open spec fn view(&self) -> IndexEntryView {
        IndexEntryView { name: self.name@, latest: self.latest@, detail: self.detail@ }
    }
}

/// The index entry of a written candidate file, and whether the file changed.
pub struct CandidateWrite {
    pub entry: IndexEntry,
    pub changed: bool,
}

/// The latest version of a candidate: the first entry's version, or
/// `unknown` when there is none.
pub open spec fn latest_spec(versions: Seq<VersionEntry>) -> Seq<char> {
    if versions.len() > 0 {
        versions[0].version@
    } else {
        "unknown"@
    }
}

/// The latest version of a candidate whose entries are newest first.
pub fn latest_version(versions: &Vec<VersionEntry>) -> (r: String)
    ensures
        r@ == latest_spec(versions@),
{
    if versions.len() > 0 {
        versions[0].version.clone()
    } else {
        owned("unknown")
    }
}

/// The file name of a candidate: `{dir_name}.json`.
pub open spec fn file_name_spec(dir_name: Seq<char>) -> Seq<char> {
    dir_name + ".json"@
}

/// The file name of a candidate.
pub fn candidate_file_name(dir_name: &str) -> (r: String)
    ensures
        r@ == file_name_spec(dir_name@),
{
    let mut f = owned(dir_name);
    f.append(".json");
    f
}

/// The path of a candidate file relative to the registry root.
pub open spec fn detail_spec(dir_name: Seq<char>) -> Seq<char> {
    "candidates"@ + "/"@ + file_name_spec(dir_name)
}

/// The path of a candidate file relative to the registry root.
pub fn candidate_detail(dir_name: &str) -> (r: String)
    ensures
        r@ == detail_spec(dir_name@),
{
    let mut d = owned(CANDIDATES_DIR);
    d.append("/");
    let f = candidate_file_name(dir_name);
    d.append(f.as_str());
    d
}

/// The index entry of a candidate.
pub fn index_entry_for(display: &str, dir_name: &str, versions: &Vec<VersionEntry>) -> (r: IndexEntry)
    ensures
        r@ == (IndexEntryView {
            name: display@,
            latest: latest_spec(versions@),
            detail: detail_spec(dir_name@),
        }),
{
    IndexEntry { name: owned(display), latest: latest_version(versions), detail: candidate_detail(dir_name) }
}

/// The candidates of the index, keyed by directory name; a later entry for
/// the same name replaces an earlier one.
pub fn index_candidates(entries: Vec<(String, IndexEntry)>) -> (r: SortedMap<IndexEntry>)
    ensures
        r@ == pairs_to_map(entries@.map_values(|e: (String, IndexEntry)| (e.0@, e.1))),
{
    let ghost ev = entries@.map_values(|e: (String, IndexEntry)| (e.0@, e.1));
    let mut m: SortedMap<IndexEntry> = SortedMap::new();
    let mut entries = entries;
    let mut rest: Vec<(String, IndexEntry)> = Vec::new();
    assert(ev.len() == entries.len());
    // Take the entries out from the back, then insert them front to back.
    while entries.len() > 0
        invariant
            ev.len() == entries@.len() + rest@.len(),
            ev.len() <= usize::MAX,
            forall|k: int| 0 <= k < entries@.len() ==> (#[trigger] entries@[k]).0@ == ev[k].0 && entries@[k].1 == ev[k].1,
            forall|k: int| 0 <= k < rest@.len() ==> (#[trigger] rest@[k]).0@ == ev[ev.len() - 1 - k].0 && rest@[k].1
                == ev[ev.len() - 1 - k].1,
        decreases entries@.len(),
    {
        let e = entries.pop().unwrap();
        rest.push(e);
    }
    let mut i: usize = 0;
    assert(ev.take(0) =~= Seq::<(Seq<char>, IndexEntry)>::empty());
    while rest.len() > 0
        invariant
            ev.len() == i + rest@.len(),
            ev.len() <= usize::MAX,
            forall|k: int| 0 <= k < rest@.len() ==> (#[trigger] rest@[k]).0@ == ev[ev.len() - 1 - k].0 && rest@[k].1
                == ev[ev.len() - 1 - k].1,
            m@ == pairs_to_map(ev.take(i as int)),
        decreases rest@.len(),
    {
        let (k, v) = rest.pop().unwrap();
        proof {
            assert(ev.take(i + 1).drop_last() =~= ev.take(i as int));
            assert(ev[i as int] == (k@, v));
        }
        m.insert(k, v);
        i = i + 1;
    }
    assert(ev.take(i as int) =~= ev);
    m
}

/// What comparing two texts as JSON documents gives: `None` unless both
/// parse as JSON values (`serde_json::from_str::<serde_json::Value>`), else
/// whether the two values are equal.
pub uninterp spec fn json_compare(a: Seq<char>, b: Seq<char>) -> Option<bool>;

/// Parses both texts with `serde_json::from_str::<serde_json::Value>` and,
/// when both parse, compares the values with `Value`'s `==`. The contract
/// names the result, a function of the two texts alone, and states one fact
/// of it: a text compared with itself is never unequal (parsing is
/// deterministic and `Value`'s derived `==` is reflexive on parsed values,
/// which hold no NaN). It does not state when a text parses.
#[verifier::external_body]
fn json_documents_equal(a: &str, b: &str) -> (r: Option<bool>)
    ensures
        r == json_compare(a@, b@),
        a@ == b@ ==> r != Some(false),
{
    match (serde_json::from_str::<serde_json::Value>(a), serde_json::from_str::<serde_json::Value>(b)) {
        (Ok(x), Ok(y)) => Some(x == y),
        _ => None,
    }
}

/// Whether `generated` differs from `existing`: as JSON values when both
/// parse, else as texts.
pub open spec fn json_changed_spec(existing: Seq<char>, generated: Seq<char>) -> bool {
    match json_compare(existing, generated) {
        Some(equal) => !equal,
        None => existing != generated,
    }
}

/// Whether the decision of `json_changed` is `changed` for a given outcome
/// of the JSON comparison.
pub fn changed_given(existing: &str, generated: &str, compared: Option<bool>) -> (r: bool)
    ensures
        r == match compared {
            Some(equal) => !equal,
            None => existing@ != generated@,
        },
{
    match compared {
        Some(equal) => !equal,
        None => !crate::candidates::apache::str_equal(existing, generated),
    }
}

/// Whether `generated` differs from `existing`: as JSON values when both
/// parse as JSON, else as texts.
pub fn json_changed(existing: &str, generated: &str) -> (r: bool)
    ensures
        r == json_changed_spec(existing@, generated@),
        existing@ == generated@ ==> !r,
{
    let compared = json_documents_equal(existing, generated);
    changed_given(existing, generated, compared)
}

/// Whether a file must be written: it does not exist yet (or cannot be
/// read), or its content differs from the generated one.
pub fn needs_write(existing: Option<&str>, generated: &str) -> (r: bool)
    ensures
        r == match existing {
            Some(e) => json_changed_spec(e@, generated@),
            None => true,
        },
        existing matches Some(e) && e@ == generated@ ==> !r,
{
    match existing {
        Some(e) => json_changed(e, generated),
        None => true,
    }
}

/// What reading member `key` of a JSON document gives: the member's text
/// when the document parses as a JSON value, is an object, and the member is
/// a string; else `None`.
pub uninterp spec fn json_string_member(text: Seq<char>, key: Seq<char>) -> Option<Seq<char>>;

/// Parses `text` with `serde_json::from_str::<serde_json::Value>` and reads
/// the string member `key` (`Value::get`, then `Value::as_str`). The
/// contract names the result, a function of the text and the key alone.
#[verifier::external_body]
fn json_member_text(text: &str, key: &str) -> (r: Option<String>)
    ensures
        match r {
            Some(s) => json_string_member(text@, key@) == Some(s@),
            None => json_string_member(text@, key@) is None,
        },
{
    match serde_json::from_str::<serde_json::Value>(text) {
        Ok(value) => value.get(key).and_then(|member| member.as_str()).map(|s| s.to_string()),
        Err(_) => None,
    }
}

/// The `updated` value of the index: the one the existing index holds when
/// no candidate changed and it has one, else `now`.
pub open spec fn updated_spec(existing_index: Option<Seq<char>>, data_changed: bool, now: Seq<char>) -> Seq<char> {
    match existing_index {
        Some(text) => if !data_changed && json_string_member(text, "updated"@) is Some {
            json_string_member(text, "updated"@)->0
        } else {
            now
        },
        None => now,
    }
}

/// The `updated` value of the index, given the text of the existing index
/// (if it could be read), whether any candidate changed, and the current
/// time.
pub fn updated_timestamp(existing_index: Option<&str>, data_changed: bool, now: String) -> (r: String)
    ensures
        r@ == updated_spec(
            match existing_index {
                Some(t) => Some(t@),
                None => None,
            },
            data_changed,
            now@,
        ),
{
    if !data_changed {
        if let Some(text) = existing_index {
            let member = json_member_text(text, "updated");
            return timestamp_given(member, now);
        }
    }
    now
}

/// The `updated` value of an index whose candidates did not change, given
/// what reading the existing index's `updated` member gave: that text, or
/// `now` when there was none.
pub fn timestamp_given(member: Option<String>, now: String) -> (r: String)
    ensures
        r@ == match member {
            Some(s) => s@,
            None => now@,
        },
{
    match member {
        Some(s) => s,
        None => now,
    }
}

} // verus!
