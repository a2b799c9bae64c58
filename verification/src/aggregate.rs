//! The shared result aggregator: claim-based deduplication of file paths,
//! collection of match records and matched files, and the deterministic
//! final rendering.

use crate::json::{push_record_json, record_json};
use crate::records::{MatchRecord, OutputMode, RecordModel, views_of};
use crate::sorting::{
    contains_path, dedup_path_vec, dedup_paths, file_group, lemma_list_identical,
    lemma_sorted_output_identical, sort_by_file, sort_path_vec, sort_paths, sort_records,
    wf_file_keys, wf_paths,
};
use crate::text::{chars_to_string, push_str_chars};
use vstd::prelude::*;

verus! {

/// Joins items with a separator: no trailing separator, empty when there is
/// no item.
pub open spec fn joined(items: Seq<Seq<char>>, sep: Seq<char>) -> Seq<char>
    decreases items.len(),
{
    if items.len() == 0 {
        Seq::empty()
    } else if items.len() == 1 {
        items[0]
    } else {
        joined(items.drop_last(), sep) + sep + items.last()
    }
}

/// The full records-mode output: a JSON array of the given records.
pub open spec fn records_output(models: Seq<RecordModel>) -> Seq<char> {
    "["@ + joined(models.map_values(|m: RecordModel| record_json(m)), ","@) + "]"@
}

/// The full text-mode output: the matched texts, separator-joined.
pub open spec fn texts_output(models: Seq<RecordModel>, sep: Seq<char>) -> Seq<char> {
    joined(models.map_values(|m: RecordModel| m.text), sep)
}

/// The full list-mode output: the matching files, deduplicated, sorted, and
/// separator-joined.
pub open spec fn list_output(files: Seq<Seq<char>>, sep: Seq<char>) -> Seq<char> {
    joined(sort_paths(dedup_paths(files)), sep)
}

/// What one run prints, as a function of the collected state alone.
pub open spec fn final_output(
    mode: OutputMode,
    models: Seq<RecordModel>,
    files: Seq<Seq<char>>,
    sep: Seq<char>,
) -> Seq<char> {
    match mode {
        OutputMode::Records => records_output(sort_by_file(models)),
        OutputMode::TextOnly => texts_output(sort_by_file(models), sep),
        OutputMode::ListOnly => list_output(files, sep),
    }
}

/// How one `claim` call changes the claimed set: a fresh path is added and
/// reported fresh, a known one leaves the set unchanged.
pub open spec fn claim_transition(claimed: Seq<Seq<char>>, p: Seq<char>) -> (Seq<Seq<char>>, bool) {
    if contains_path(claimed, p) {
        (claimed, false)
    } else {
        (claimed.push(p), true)
    }
}

/// A path is handed out for processing at most once: after any claim of `p`,
/// a further claim of `p` is refused, whatever the claimed set held before.
pub proof fn lemma_claim_at_most_once(claimed: Seq<Seq<char>>, p: Seq<char>)
    ensures
        !claim_transition(claim_transition(claimed, p).0, p).1,
{
    let after = claim_transition(claimed, p).0;
    if contains_path(claimed, p) {
        assert(contains_path(after, p));
    } else {
        assert(after == claimed.push(p));
        assert(after[after.len() - 1] == p);
        assert(contains_path(after, p));
    }
}

/// The shared, lock-guarded state of one run: the dedup set of claimed
/// paths, the collected match records, and the files seen to match.
pub struct Aggregator {
    pub claimed: Vec<String>,
    pub entries: Vec<MatchRecord>,
    pub matched_files: Vec<String>,
}

impl Aggregator {
    /// A fresh aggregator with nothing claimed and nothing collected.
    pub fn new() -> (r: Aggregator)
        ensures
            r.claimed.deep_view() == Seq::<Seq<char>>::empty(),
            r.entries@ == Seq::<MatchRecord>::empty(),
            r.matched_files.deep_view() == Seq::<Seq<char>>::empty(),
    {
        let r = Aggregator { claimed: Vec::new(), entries: Vec::new(), matched_files: Vec::new() };
        proof {
            assert(r.claimed.deep_view() =~= Seq::<Seq<char>>::empty());
            assert(r.matched_files.deep_view() =~= Seq::<Seq<char>>::empty());
        }
        r
    }

    /// Atomically tests and records a path: `true` means the caller owns the
    /// file and must process it; `false` means another pass already claimed
    /// it. Nothing else changes.
    pub fn claim(&mut self, path: &String) -> (fresh: bool)
        ensures
            (final(self).claimed.deep_view(), fresh) == claim_transition(
                old(self).claimed.deep_view(),
                path@,
            ),
            final(self).entries == old(self).entries,
            final(self).matched_files == old(self).matched_files,
    {
        let ghost cv = self.claimed.deep_view();
        let n = self.claimed.len();
        let mut j: usize = 0;
        while j < n
            invariant
                j <= n,
                n == self.claimed@.len(),
                cv == self.claimed.deep_view(),
                *self == *old(self),
                forall|k: int| 0 <= k < j ==> #[trigger] cv[k] != path@,
            decreases n - j,
        {
            if self.claimed[j].eq(path) {
                proof {
                    assert(cv[j as int] == self.claimed@[j as int]@);
                    assert(contains_path(cv, path@));
                }
                return false;
            }
            proof {
                assert(cv[j as int] == self.claimed@[j as int]@);
            }
            j += 1;
        }
        proof {
            assert(!contains_path(cv, path@));
        }
        self.claimed.push(path.clone());
        proof {
            assert(self.claimed.deep_view() =~= cv.push(path@));
        }
        true
    }

    /// Appends one file's records to the collected output.
    pub fn add_records(&mut self, recs: Vec<MatchRecord>)
        ensures
            final(self).entries@ == old(self).entries@ + recs@,
            final(self).claimed == old(self).claimed,
            final(self).matched_files == old(self).matched_files,
    {
        let mut recs = recs;
        self.entries.append(&mut recs);
    }

    /// Records that a file contained at least one visible match.
    pub fn add_matched_file(&mut self, path: String)
        ensures
            final(self).matched_files.deep_view() == old(self).matched_files.deep_view().push(
                path@,
            ),
            final(self).claimed == old(self).claimed,
            final(self).entries == old(self).entries,
    {
        let ghost mv = self.matched_files.deep_view();
        self.matched_files.push(path);
        proof {
            assert(self.matched_files.deep_view() =~= mv.push(self.matched_files@.last()@));
        }
    }

    /// Renders the final output for the chosen mode: records sorted stably
    /// by file path as a JSON array, texts in the same order separator-joined,
    /// or the matching files deduplicated, sorted and separator-joined. An
    /// empty run yields `[]` in records mode and an empty string otherwise.
    pub fn finalize(&self, mode: OutputMode, separator: &str) -> (r: String)
        ensures
            r@ == final_output(
                mode,
                views_of(self.entries@),
                self.matched_files.deep_view(),
                separator@,
            ),
            views_of(self.entries@).len() == 0 && matches!(mode, OutputMode::Records) ==> r@
                == "[]"@,
            views_of(self.entries@).len() == 0 && matches!(mode, OutputMode::TextOnly) ==> r@
                == Seq::<char>::empty(),
            self.matched_files.deep_view().len() == 0 && matches!(mode, OutputMode::ListOnly)
                ==> r@ == Seq::<char>::empty(),
    {
        match mode {
            OutputMode::Records => render_records(&self.entries),
            OutputMode::TextOnly => render_texts(&self.entries, separator),
            OutputMode::ListOnly => render_list(&self.matched_files, separator),
        }
    }
}

/// Renders the JSON array of the records, sorted stably by file path.
pub fn render_records(entries: &Vec<MatchRecord>) -> (r: String)
    ensures
        r@ == records_output(sort_by_file(views_of(entries@))),
        views_of(entries@).len() == 0 ==> r@ == "[]"@,
{
    let sorted = sort_records(entries);
    let ghost models = sort_by_file(views_of(entries@));
    let ghost items = models.map_values(|m: RecordModel| record_json(m));
    let mut out: Vec<char> = Vec::new();
    push_str_chars(&mut out, "[");
    let n = sorted.len();
    let mut i: usize = 0;
    while i < n
        invariant
            i <= n,
            n == sorted@.len(),
            views_of(sorted@) == models,
            items == models.map_values(|m: RecordModel| record_json(m)),
            out@ == "["@ + joined(items.subrange(0, i as int), ","@),
        decreases n - i,
    {
        proof {
            assert(items.subrange(0, i + 1).drop_last() =~= items.subrange(0, i as int));
            assert(items.subrange(0, i + 1).last() == items[i as int]);
            assert(items[i as int] == record_json(models[i as int]));
            assert(models[i as int] == sorted@[i as int]@);
        }
        if i > 0 {
            push_str_chars(&mut out, ",");
            push_record_json(&mut out, &sorted[i]);
            proof {
                assert(out@ =~= "["@ + joined(items.subrange(0, i + 1), ","@));
            }
        } else {
            push_record_json(&mut out, &sorted[i]);
            proof {
                assert(items.subrange(0, 1)[0] == items[0]);
                assert(out@ =~= "["@ + joined(items.subrange(0, 1), ","@));
            }
        }
        i += 1;
    }
    push_str_chars(&mut out, "]");
    proof {
        assert(items.subrange(0, n as int) =~= items);
        assert(out@ =~= records_output(models));
        if views_of(entries@).len() == 0 {
            assert(models =~= Seq::<RecordModel>::empty());
            assert(items =~= Seq::<Seq<char>>::empty());
            reveal_strlit("[");
            reveal_strlit("]");
            reveal_strlit("[]");
            assert(out@ =~= "[]"@);
        }
    }
    chars_to_string(&out)
}

/// Renders the matched texts, in the sorted record order, separator-joined.
pub fn render_texts(entries: &Vec<MatchRecord>, separator: &str) -> (r: String)
    ensures
        r@ == texts_output(sort_by_file(views_of(entries@)), separator@),
        views_of(entries@).len() == 0 ==> r@ == Seq::<char>::empty(),
{
    let sorted = sort_records(entries);
    let ghost models = sort_by_file(views_of(entries@));
    let ghost items = models.map_values(|m: RecordModel| m.text);
    let mut out: Vec<char> = Vec::new();
    let n = sorted.len();
    let mut i: usize = 0;
    while i < n
        invariant
            i <= n,
            n == sorted@.len(),
            views_of(sorted@) == models,
            items == models.map_values(|m: RecordModel| m.text),
            out@ == joined(items.subrange(0, i as int), separator@),
        decreases n - i,
    {
        proof {
            assert(items.subrange(0, i + 1).drop_last() =~= items.subrange(0, i as int));
            assert(items.subrange(0, i + 1).last() == items[i as int]);
            assert(items[i as int] == models[i as int].text);
            assert(models[i as int] == sorted@[i as int]@);
        }
        if i > 0 {
            push_str_chars(&mut out, separator);
            push_str_chars(&mut out, sorted[i].text.as_str());
            proof {
                assert(out@ =~= joined(items.subrange(0, i + 1), separator@));
            }
        } else {
            push_str_chars(&mut out, sorted[i].text.as_str());
            proof {
                assert(items.subrange(0, 1)[0] == items[0]);
                assert(out@ =~= joined(items.subrange(0, 1), separator@));
            }
        }
        i += 1;
    }
    proof {
        assert(items.subrange(0, n as int) =~= items);
        if views_of(entries@).len() == 0 {
            assert(models =~= Seq::<RecordModel>::empty());
            assert(items =~= Seq::<Seq<char>>::empty());
        }
    }
    chars_to_string(&out)
}

/// Renders the matching file list: deduplicated, sorted, separator-joined.
pub fn render_list(files: &Vec<String>, separator: &str) -> (r: String)
    ensures
        r@ == list_output(files.deep_view(), separator@),
        files.deep_view().len() == 0 ==> r@ == Seq::<char>::empty(),
{
    let distinct = dedup_path_vec(files);
    let sorted = sort_path_vec(&distinct);
    let ghost items = sort_paths(dedup_paths(files.deep_view()));
    let mut out: Vec<char> = Vec::new();
    let n = sorted.len();
    let mut i: usize = 0;
    proof {
        assert(sorted.deep_view() == items);
        assert(n == items.len());
    }
    while i < n
        invariant
            i <= n,
            n == sorted@.len(),
            sorted.deep_view() == items,
            out@ == joined(items.subrange(0, i as int), separator@),
        decreases n - i,
    {
        proof {
            assert(items.subrange(0, i + 1).drop_last() =~= items.subrange(0, i as int));
            assert(items.subrange(0, i + 1).last() == items[i as int]);
            assert(items[i as int] == sorted@[i as int]@);
        }
        if i > 0 {
            push_str_chars(&mut out, separator);
            push_str_chars(&mut out, sorted[i].as_str());
            proof {
                assert(out@ =~= joined(items.subrange(0, i + 1), separator@));
            }
        } else {
            push_str_chars(&mut out, sorted[i].as_str());
            proof {
                assert(items.subrange(0, 1)[0] == items[0]);
                assert(out@ =~= joined(items.subrange(0, 1), separator@));
            }
        }
        i += 1;
    }
    proof {
        assert(items.subrange(0, n as int) =~= items);
        if files.deep_view().len() == 0 {
            assert(files.deep_view() =~= Seq::<Seq<char>>::empty());
            assert(dedup_paths(files.deep_view()) == Seq::<Seq<char>>::empty());
            assert(items =~= Seq::<Seq<char>>::empty());
        }
    }
    chars_to_string(&out)
}

/// Idempotence of a run: two runs over an unchanged tree with the same
/// pattern collect, for every file, the same records and the same matched
/// state — but their workers finish in different orders, so the collected
/// sequences interleave differently. The final output is nonetheless
/// byte-identical: the stable sort pins the record order, and the matched
/// files are deduplicated and sorted.
pub proof fn lemma_output_idempotent(
    mode: OutputMode,
    a_entries: Seq<RecordModel>,
    b_entries: Seq<RecordModel>,
    a_files: Seq<Seq<char>>,
    b_files: Seq<Seq<char>>,
    sep: Seq<char>,
)
    requires
        wf_file_keys(a_entries),
        wf_file_keys(b_entries),
        forall|f: Seq<char>| #[trigger] file_group(a_entries, f) == file_group(b_entries, f),
        wf_paths(a_files),
        wf_paths(b_files),
        forall|p: Seq<char>| contains_path(a_files, p) <==> #[trigger] contains_path(b_files, p),
    ensures
        final_output(mode, a_entries, a_files, sep) == final_output(mode, b_entries, b_files, sep),
{
    match mode {
        OutputMode::Records => {
            lemma_sorted_output_identical(a_entries, b_entries);
        },
        OutputMode::TextOnly => {
            lemma_sorted_output_identical(a_entries, b_entries);
        },
        OutputMode::ListOnly => {
            lemma_list_identical(a_files, b_files);
        },
    }
}

} // verus!
