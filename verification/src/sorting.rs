//! The deterministic final order: a stable sort of match records by file
//! path, and the dedup-and-sort of the matched-file list.

use crate::records::{MatchRecord, RecordModel, views_of};
use crate::text::{lemma_lex_le_antisym, lemma_lex_le_refl, lemma_lex_le_total, lemma_lex_le_trans, lex_le, str_lex_le, wf_chars};
use vstd::prelude::*;

verus! {

/// Inserts `x` into `s` after every record whose file path is not greater:
/// the stable insertion step of the sort.
pub open spec fn insert_sorted(s: Seq<RecordModel>, x: RecordModel) -> Seq<RecordModel>
    decreases s.len(),
{
    if s.len() == 0 {
        seq![x]
    } else if lex_le(s.last().file, x.file) {
        s.push(x)
    } else {
        insert_sorted(s.drop_last(), x).push(s.last())
    }
}

/// The stable sort of records by file path: each record in turn is inserted
/// after every record already placed whose path is not greater.
pub open spec fn sort_by_file(s: Seq<RecordModel>) -> Seq<RecordModel>
    decreases s.len(),
{
    if s.len() == 0 {
        Seq::empty()
    } else {
        insert_sorted(sort_by_file(s.drop_last()), s.last())
    }
}

/// Whether a record sequence is ordered by file path.
pub open spec fn sorted_by_file(s: Seq<RecordModel>) -> bool {
    forall|i: int, j: int| 0 <= i < j < s.len() ==> lex_le(#[trigger] s[i].file, #[trigger] s[j].file)
}

/// The subsequence of records for one file, in their original order.
pub open spec fn file_group(s: Seq<RecordModel>, f: Seq<char>) -> Seq<RecordModel>
    decreases s.len(),
{
    if s.len() == 0 {
        Seq::empty()
    } else if s.last().file == f {
        file_group(s.drop_last(), f).push(s.last())
    } else {
        file_group(s.drop_last(), f)
    }
}

proof fn lemma_insert_sorted_elems(s: Seq<RecordModel>, x: RecordModel)
    ensures
        insert_sorted(s, x).len() == s.len() + 1,
        forall|i: int|
            0 <= i < insert_sorted(s, x).len() ==> (#[trigger] insert_sorted(s, x)[i] == x
                || exists|k: int| 0 <= k < s.len() && s[k] == insert_sorted(s, x)[i]),
    decreases s.len(),
{
    if s.len() == 0 {
    } else if lex_le(s.last().file, x.file) {
    } else {
        lemma_insert_sorted_elems(s.drop_last(), x);
        let ins0 = insert_sorted(s.drop_last(), x);
        let ins = insert_sorted(s, x);
        assert forall|i: int|
            0 <= i < ins.len() implies (ins[i] == x || exists|k: int|
            0 <= k < s.len() && s[k] == ins[i]) by {
            if i < ins0.len() {
                assert(ins[i] == ins0[i]);
                if ins0[i] != x {
                    let k = choose|k: int| 0 <= k < s.drop_last().len() && s.drop_last()[k]
                        == ins0[i];
                    assert(s[k] == ins[i]);
                }
            } else {
                assert(ins[i] == s.last());
                assert(s[s.len() - 1] == ins[i]);
            }
        }
    }
}

proof fn lemma_insert_sorted_sorted(s: Seq<RecordModel>, x: RecordModel)
    requires
        sorted_by_file(s),
    ensures
        sorted_by_file(insert_sorted(s, x)),
    decreases s.len(),
{
    if s.len() == 0 {
    } else if lex_le(s.last().file, x.file) {
        let ins = s.push(x);
        assert forall|i: int, j: int|
            0 <= i < j < ins.len() implies lex_le(ins[i].file, ins[j].file) by {
            if j == s.len() {
                if i < s.len() - 1 {
                    assert(lex_le(s[i].file, s[s.len() - 1].file));
                    lemma_lex_le_trans(s[i].file, s.last().file, x.file);
                }
            }
        }
    } else {
        lemma_lex_le_total(s.last().file, x.file);
        assert(sorted_by_file(s.drop_last()));
        lemma_insert_sorted_sorted(s.drop_last(), x);
        lemma_insert_sorted_elems(s.drop_last(), x);
        let ins0 = insert_sorted(s.drop_last(), x);
        let ins = ins0.push(s.last());
        assert forall|i: int, j: int|
            0 <= i < j < ins.len() implies lex_le(ins[i].file, ins[j].file) by {
            if j == ins0.len() {
                assert(ins[j] == s.last());
                assert(ins[i] == ins0[i]);
                if ins0[i] == x {
                    assert(lex_le(x.file, s.last().file));
                } else {
                    let k = choose|k: int| 0 <= k < s.drop_last().len() && s.drop_last()[k]
                        == ins0[i];
                    assert(s[k] == ins0[i]);
                    assert(lex_le(s[k].file, s[s.len() - 1].file));
                }
            } else {
                assert(ins[i] == ins0[i] && ins[j] == ins0[j]);
            }
        }
    }
}

/// The sorted final order really is ordered by file path.
pub proof fn lemma_sort_by_file_sorted(s: Seq<RecordModel>)
    ensures
        sorted_by_file(sort_by_file(s)),
    decreases s.len(),
{
    if s.len() > 0 {
        lemma_sort_by_file_sorted(s.drop_last());
        lemma_insert_sorted_sorted(sort_by_file(s.drop_last()), s.last());
    }
}

proof fn lemma_insert_sorted_group(s: Seq<RecordModel>, x: RecordModel, f: Seq<char>)
    ensures
        file_group(insert_sorted(s, x), f) == if x.file == f {
            file_group(s, f).push(x)
        } else {
            file_group(s, f)
        },
    decreases s.len(),
{
    let target = if x.file == f {
        file_group(s, f).push(x)
    } else {
        file_group(s, f)
    };
    if s.len() == 0 {
        assert(seq![x].drop_last() =~= Seq::<RecordModel>::empty());
        assert(seq![x].last() == x);
        assert(file_group(Seq::<RecordModel>::empty(), f) == Seq::<RecordModel>::empty());
        assert(s =~= Seq::<RecordModel>::empty());
        assert(file_group(insert_sorted(s, x), f) == target);
    } else if lex_le(s.last().file, x.file) {
        assert(s.push(x).drop_last() =~= s);
        assert(s.push(x).last() == x);
        assert(file_group(insert_sorted(s, x), f) == target);
    } else {
        if x.file == f && s.last().file == f {
            lemma_lex_le_refl(x.file);
            assert(false);
        }
        lemma_insert_sorted_group(s.drop_last(), x, f);
        let ins0 = insert_sorted(s.drop_last(), x);
        let ins = ins0.push(s.last());
        assert(ins == insert_sorted(s, x));
        assert(ins.drop_last() =~= ins0);
        assert(ins.last() == s.last());
        if s.last().file == f {
            assert(x.file != f);
            assert(file_group(ins, f) == file_group(ins0, f).push(s.last()));
            assert(file_group(ins0, f) == file_group(s.drop_last(), f));
            assert(file_group(s, f) == file_group(s.drop_last(), f).push(s.last()));
        } else {
            assert(file_group(ins, f) == file_group(ins0, f));
            assert(file_group(s, f) == file_group(s.drop_last(), f));
        }
        assert(file_group(insert_sorted(s, x), f) == target);
    }
}

/// The sort is stable: for every file, the sorted sequence holds exactly the
/// records of that file, in their original (engine event) order.
pub proof fn lemma_sort_by_file_stable(s: Seq<RecordModel>, f: Seq<char>)
    ensures
        file_group(sort_by_file(s), f) == file_group(s, f),
    decreases s.len(),
{
    if s.len() > 0 {
        lemma_sort_by_file_stable(s.drop_last(), f);
        lemma_insert_sorted_group(sort_by_file(s.drop_last()), s.last(), f);
    }
}

/// Copies one record; `String` cloning keeps the value.
fn copy_record(r: &MatchRecord) -> (c: MatchRecord)
    ensures
        c == *r,
{
    MatchRecord {
        file: r.file.clone(),
        start: r.start,
        end: r.end,
        capture: r.capture.clone(),
        text: r.text.clone(),
    }
}

fn insert_record(out: &mut Vec<MatchRecord>, x: MatchRecord)
    ensures
        views_of(final(out)@) == insert_sorted(views_of(old(out)@), x@),
{
    let ghost s = views_of(out@);
    let n = out.len();
    let mut j: usize = n;
    proof {
        assert(s.subrange(0, n as int) =~= s);
        assert(s.subrange(n as int, n as int) =~= Seq::<RecordModel>::empty());
        assert(insert_sorted(s, x@) =~= insert_sorted(s.subrange(0, n as int), x@) + s.subrange(
            n as int,
            n as int,
        ));
    }
    loop
        invariant
            j <= n,
            n == out@.len(),
            out@ == old(out)@,
            s == views_of(out@),
            insert_sorted(s, x@) == insert_sorted(s.subrange(0, j as int), x@) + s.subrange(
                j as int,
                n as int,
            ),
        ensures
            j <= n,
            out@ == old(out)@,
            insert_sorted(s, x@) == insert_sorted(s.subrange(0, j as int), x@) + s.subrange(
                j as int,
                n as int,
            ),
            j == 0 || lex_le(s[j - 1].file, x@.file),
        decreases j,
    {
        if j == 0 {
            break;
        }
        if str_lex_le(out[j - 1].file.as_str(), x.file.as_str()) {
            proof {
                assert(s[j - 1] == out@[j - 1]@);
            }
            break;
        }
        proof {
            let pre = s.subrange(0, j as int);
            assert(pre.last() == out@[j - 1]@);
            assert(!lex_le(pre.last().file, x@.file));
            assert(pre.drop_last() =~= s.subrange(0, j - 1));
            assert(insert_sorted(pre, x@) == insert_sorted(s.subrange(0, j - 1), x@).push(
                s[j - 1],
            ));
            assert(insert_sorted(s.subrange(0, j - 1), x@).push(s[j - 1]) + s.subrange(
                j as int,
                n as int,
            ) =~= insert_sorted(s.subrange(0, j - 1), x@) + s.subrange(j - 1, n as int));
        }
        j -= 1;
    }
    proof {
        let pre = s.subrange(0, j as int);
        if j == 0 {
            assert(insert_sorted(pre, x@) =~= seq![x@]);
        } else {
            assert(pre.last() == s[j - 1]);
            assert(lex_le(pre.last().file, x@.file));
            assert(insert_sorted(pre, x@) == pre.push(x@));
        }
    }
    out.insert(j, x);
    proof {
        let pre = s.subrange(0, j as int);
        assert(insert_sorted(s, x@) =~= insert_sorted(pre, x@) + s.subrange(j as int, n as int));
        assert(views_of(out@) =~= insert_sorted(pre, x@) + s.subrange(j as int, n as int));
    }
}

/// Sorts records stably by file path: the executable form of `sort_by_file`.
pub fn sort_records(input: &Vec<MatchRecord>) -> (r: Vec<MatchRecord>)
    ensures
        views_of(r@) == sort_by_file(views_of(input@)),
{
    let mut out: Vec<MatchRecord> = Vec::new();
    let n = input.len();
    let mut i: usize = 0;
    while i < n
        invariant
            i <= n,
            n == input@.len(),
            views_of(out@) == sort_by_file(views_of(input@).subrange(0, i as int)),
        decreases n - i,
    {
        proof {
            let v = views_of(input@);
            assert(v.subrange(0, i + 1).drop_last() =~= v.subrange(0, i as int));
            assert(v.subrange(0, i + 1).last() == v[i as int]);
            assert(v[i as int] == input@[i as int]@);
        }
        let x = copy_record(&input[i]);
        insert_record(&mut out, x);
        i += 1;
    }
    proof {
        assert(views_of(input@).subrange(0, n as int) =~= views_of(input@));
    }
    out
}


/// Whether a path stands in a path sequence.
pub open spec fn contains_path(paths: Seq<Seq<char>>, p: Seq<char>) -> bool {
    exists|i: int| 0 <= i < paths.len() && paths[i] == p
}

/// Keeps the first occurrence of every path, dropping later duplicates.
pub open spec fn dedup_paths(paths: Seq<Seq<char>>) -> Seq<Seq<char>>
    decreases paths.len(),
{
    if paths.len() == 0 {
        Seq::empty()
    } else if contains_path(paths.drop_last(), paths.last()) {
        dedup_paths(paths.drop_last())
    } else {
        dedup_paths(paths.drop_last()).push(paths.last())
    }
}

/// Inserts a path after every path that is not greater: the stable insertion
/// step of the path sort.
pub open spec fn insert_path(s: Seq<Seq<char>>, x: Seq<char>) -> Seq<Seq<char>>
    decreases s.len(),
{
    if s.len() == 0 {
        seq![x]
    } else if lex_le(s.last(), x) {
        s.push(x)
    } else {
        insert_path(s.drop_last(), x).push(s.last())
    }
}

/// The sort of a path list by `lex_le`.
pub open spec fn sort_paths(s: Seq<Seq<char>>) -> Seq<Seq<char>>
    decreases s.len(),
{
    if s.len() == 0 {
        Seq::empty()
    } else {
        insert_path(sort_paths(s.drop_last()), s.last())
    }
}

/// Whether a path sequence is ordered by `lex_le`.
pub open spec fn sorted_paths(s: Seq<Seq<char>>) -> bool {
    forall|i: int, j: int| 0 <= i < j < s.len() ==> lex_le(#[trigger] s[i], #[trigger] s[j])
}

proof fn lemma_insert_path_elems(s: Seq<Seq<char>>, x: Seq<char>)
    ensures
        insert_path(s, x).len() == s.len() + 1,
        forall|i: int|
            0 <= i < insert_path(s, x).len() ==> (#[trigger] insert_path(s, x)[i] == x
                || exists|k: int| 0 <= k < s.len() && s[k] == insert_path(s, x)[i]),
    decreases s.len(),
{
    if s.len() == 0 {
    } else if lex_le(s.last(), x) {
    } else {
        lemma_insert_path_elems(s.drop_last(), x);
        let ins0 = insert_path(s.drop_last(), x);
        let ins = insert_path(s, x);
        assert forall|i: int|
            0 <= i < ins.len() implies (ins[i] == x || exists|k: int|
            0 <= k < s.len() && s[k] == ins[i]) by {
            if i < ins0.len() {
                assert(ins[i] == ins0[i]);
                if ins0[i] != x {
                    let k = choose|k: int| 0 <= k < s.drop_last().len() && s.drop_last()[k]
                        == ins0[i];
                    assert(s[k] == ins[i]);
                }
            } else {
                assert(ins[i] == s.last());
                assert(s[s.len() - 1] == ins[i]);
            }
        }
    }
}

proof fn lemma_insert_path_sorted(s: Seq<Seq<char>>, x: Seq<char>)
    requires
        sorted_paths(s),
    ensures
        sorted_paths(insert_path(s, x)),
    decreases s.len(),
{
    if s.len() == 0 {
    } else if lex_le(s.last(), x) {
        let ins = s.push(x);
        assert forall|i: int, j: int| 0 <= i < j < ins.len() implies lex_le(ins[i], ins[j]) by {
            if j == s.len() {
                if i < s.len() - 1 {
                    assert(lex_le(s[i], s[s.len() - 1]));
                    lemma_lex_le_trans(s[i], s.last(), x);
                }
            }
        }
    } else {
        lemma_lex_le_total(s.last(), x);
        assert(sorted_paths(s.drop_last()));
        lemma_insert_path_sorted(s.drop_last(), x);
        lemma_insert_path_elems(s.drop_last(), x);
        let ins0 = insert_path(s.drop_last(), x);
        let ins = ins0.push(s.last());
        assert forall|i: int, j: int| 0 <= i < j < ins.len() implies lex_le(ins[i], ins[j]) by {
            if j == ins0.len() {
                assert(ins[j] == s.last());
                assert(ins[i] == ins0[i]);
                if ins0[i] == x {
                    assert(lex_le(x, s.last()));
                } else {
                    let k = choose|k: int| 0 <= k < s.drop_last().len() && s.drop_last()[k]
                        == ins0[i];
                    assert(s[k] == ins0[i]);
                    assert(lex_le(s[k], s[s.len() - 1]));
                }
            } else {
                assert(ins[i] == ins0[i] && ins[j] == ins0[j]);
            }
        }
    }
}

/// The sorted path list really is ordered by `lex_le`.
pub proof fn lemma_sort_paths_sorted(s: Seq<Seq<char>>)
    ensures
        sorted_paths(sort_paths(s)),
    decreases s.len(),
{
    if s.len() > 0 {
        lemma_sort_paths_sorted(s.drop_last());
        lemma_insert_path_sorted(sort_paths(s.drop_last()), s.last());
    }
}

/// Drops every path of `input` that already occurred earlier in it.
pub fn dedup_path_vec(input: &Vec<String>) -> (r: Vec<String>)
    ensures
        r.deep_view() == dedup_paths(input.deep_view()),
{
    let mut out: Vec<String> = Vec::new();
    let n = input.len();
    let mut i: usize = 0;
    while i < n
        invariant
            i <= n,
            n == input@.len(),
            out.deep_view() == dedup_paths(input.deep_view().subrange(0, i as int)),
        decreases n - i,
    {
        let ghost dv = input.deep_view();
        let mut seen = false;
        let mut j: usize = 0;
        while j < i
            invariant
                j <= i,
                i < n,
                n == input@.len(),
                dv == input.deep_view(),
                seen == contains_path(dv.subrange(0, j as int), dv[i as int]),
            decreases i - j,
        {
            proof {
                assert(dv.subrange(0, j + 1).drop_last() =~= dv.subrange(0, j as int));
                assert(dv.subrange(0, j + 1).last() == dv[j as int]);
                assert(dv[j as int] == input@[j as int]@);
                assert(dv[i as int] == input@[i as int]@);
            }
            let ghost was_seen = seen;
            if input[j].eq(&input[i]) {
                seen = true;
            }
            proof {
                if seen {
                    if dv[j as int] == dv[i as int] {
                        assert(dv.subrange(0, j + 1)[j as int] == dv[i as int]);
                        assert(contains_path(dv.subrange(0, j + 1), dv[i as int]));
                    } else {
                        assert(was_seen);
                        let k = choose|k: int|
                            0 <= k < j && dv.subrange(0, j as int)[k] == dv[i as int];
                        assert(dv.subrange(0, j + 1)[k] == dv[i as int]);
                        assert(contains_path(dv.subrange(0, j + 1), dv[i as int]));
                    }
                } else {
                    let ghost pi = dv[i as int];
                    assert forall|k: int|
                        0 <= k < j + 1 implies #[trigger] dv.subrange(0, j + 1)[k] != pi by {
                        if k < j {
                            assert(dv.subrange(0, j + 1)[k] == dv.subrange(0, j as int)[k]);
                            assert(!contains_path(dv.subrange(0, j as int), dv[i as int]));
                        } else {
                            assert(dv.subrange(0, j + 1)[k] == dv[j as int]);
                        }
                    }
                    assert(!contains_path(dv.subrange(0, j + 1), dv[i as int]));
                }
            }
            j += 1;
        }
        proof {
            assert(dv.subrange(0, i + 1).drop_last() =~= dv.subrange(0, i as int));
            assert(dv.subrange(0, i + 1).last() == dv[i as int]);
        }
        if !seen {
            out.push(input[i].clone());
            proof {
                assert(out.deep_view() =~= dedup_paths(dv.subrange(0, i as int)).push(
                    dv[i as int],
                ));
            }
        }
        i += 1;
    }
    proof {
        assert(input.deep_view().subrange(0, n as int) =~= input.deep_view());
    }
    out
}

fn insert_path_vec(out: &mut Vec<String>, x: String)
    ensures
        final(out).deep_view() == insert_path(old(out).deep_view(), x@),
{
    let ghost s = out.deep_view();
    let n = out.len();
    let mut j: usize = n;
    proof {
        assert(s.subrange(0, n as int) =~= s);
        assert(s.subrange(n as int, n as int) =~= Seq::<Seq<char>>::empty());
        assert(insert_path(s, x@) =~= insert_path(s.subrange(0, n as int), x@) + s.subrange(
            n as int,
            n as int,
        ));
    }
    loop
        invariant
            j <= n,
            n == out@.len(),
            out@ == old(out)@,
            s == out.deep_view(),
            insert_path(s, x@) == insert_path(s.subrange(0, j as int), x@) + s.subrange(
                j as int,
                n as int,
            ),
        ensures
            j <= n,
            out@ == old(out)@,
            insert_path(s, x@) == insert_path(s.subrange(0, j as int), x@) + s.subrange(
                j as int,
                n as int,
            ),
            j == 0 || lex_le(s[j - 1], x@),
        decreases j,
    {
        if j == 0 {
            break;
        }
        if str_lex_le(out[j - 1].as_str(), x.as_str()) {
            proof {
                assert(s[j - 1] == out@[j - 1]@);
            }
            break;
        }
        proof {
            let pre = s.subrange(0, j as int);
            assert(pre.last() == out@[j - 1]@);
            assert(!lex_le(pre.last(), x@));
            assert(pre.drop_last() =~= s.subrange(0, j - 1));
            assert(insert_path(pre, x@) == insert_path(s.subrange(0, j - 1), x@).push(s[j - 1]));
            assert(insert_path(s.subrange(0, j - 1), x@).push(s[j - 1]) + s.subrange(
                j as int,
                n as int,
            ) =~= insert_path(s.subrange(0, j - 1), x@) + s.subrange(j - 1, n as int));
        }
        j -= 1;
    }
    proof {
        let pre = s.subrange(0, j as int);
        if j == 0 {
            assert(insert_path(pre, x@) =~= seq![x@]);
        } else {
            assert(pre.last() == s[j - 1]);
            assert(lex_le(pre.last(), x@));
            assert(insert_path(pre, x@) == pre.push(x@));
        }
    }
    out.insert(j, x);
    proof {
        let pre = s.subrange(0, j as int);
        assert(insert_path(s, x@) =~= insert_path(pre, x@) + s.subrange(j as int, n as int));
        assert(out.deep_view() =~= insert_path(pre, x@) + s.subrange(j as int, n as int));
    }
}

/// Sorts a path list by `lex_le`: the executable form of `sort_paths`.
pub fn sort_path_vec(input: &Vec<String>) -> (r: Vec<String>)
    ensures
        r.deep_view() == sort_paths(input.deep_view()),
{
    let mut out: Vec<String> = Vec::new();
    let n = input.len();
    let mut i: usize = 0;
    while i < n
        invariant
            i <= n,
            n == input@.len(),
            out.deep_view() == sort_paths(input.deep_view().subrange(0, i as int)),
        decreases n - i,
    {
        proof {
            let v = input.deep_view();
            assert(v.subrange(0, i + 1).drop_last() =~= v.subrange(0, i as int));
            assert(v.subrange(0, i + 1).last() == v[i as int]);
            assert(v[i as int] == input@[i as int]@);
        }
        insert_path_vec(&mut out, input[i].clone());
        i += 1;
    }
    proof {
        assert(input.deep_view().subrange(0, n as int) =~= input.deep_view());
    }
    out
}


/// Whether every record's file key is a well-formed character sequence.
pub open spec fn wf_file_keys(s: Seq<RecordModel>) -> bool {
    forall|i: int| 0 <= i < s.len() ==> wf_chars(#[trigger] s[i].file)
}

proof fn lemma_file_group_elems(s: Seq<RecordModel>, f: Seq<char>)
    ensures
        forall|i: int|
            0 <= i < file_group(s, f).len() ==> (#[trigger] file_group(s, f)[i].file == f
                && exists|k: int| 0 <= k < s.len() && s[k] == file_group(s, f)[i]),
    decreases s.len(),
{
    if s.len() > 0 {
        lemma_file_group_elems(s.drop_last(), f);
        let g = file_group(s, f);
        let g0 = file_group(s.drop_last(), f);
        if s.last().file == f {
            assert(g == g0.push(s.last()));
        } else {
            assert(g == g0);
        }
        assert forall|i: int|
            0 <= i < g.len() implies (g[i].file == f && exists|k: int|
            0 <= k < s.len() && s[k] == g[i]) by {
            if s.last().file == f && i == g.len() - 1 {
                assert(g[i] == s.last());
                assert(s[s.len() - 1] == g[i]);
            } else {
                assert(g[i] == g0[i]);
                assert(g0[i].file == f);
                let k = choose|k: int| 0 <= k < s.drop_last().len() && s.drop_last()[k] == g0[i];
                assert(s[k] == g[i]);
            }
        }
    }
}

proof fn lemma_sort_by_file_elems(s: Seq<RecordModel>)
    ensures
        sort_by_file(s).len() == s.len(),
        forall|i: int|
            0 <= i < sort_by_file(s).len() ==> exists|k: int|
                0 <= k < s.len() && s[k] == #[trigger] sort_by_file(s)[i],
    decreases s.len(),
{
    if s.len() > 0 {
        lemma_sort_by_file_elems(s.drop_last());
        lemma_insert_sorted_elems(sort_by_file(s.drop_last()), s.last());
        let srt = sort_by_file(s);
        let srt0 = sort_by_file(s.drop_last());
        assert forall|i: int| #![trigger srt[i]]
            0 <= i < srt.len() implies exists|k: int| 0 <= k < s.len() && s[k] == srt[i] by {
            if srt[i] == s.last() {
                assert(s[s.len() - 1] == srt[i]);
            } else {
                let k0 = choose|k: int| 0 <= k < srt0.len() && srt0[k] == srt[i];
                let k = choose|k: int| 0 <= k < s.drop_last().len() && s.drop_last()[k] == srt0[k0];
                assert(s[k] == srt[i]);
            }
        }
    }
}

proof fn lemma_sort_by_file_wf(s: Seq<RecordModel>)
    requires
        wf_file_keys(s),
    ensures
        wf_file_keys(sort_by_file(s)),
{
    lemma_sort_by_file_elems(s);
    let srt = sort_by_file(s);
    assert forall|i: int| 0 <= i < srt.len() implies wf_chars(srt[i].file) by {
        let k = choose|k: int| 0 <= k < s.len() && s[k] == srt[i];
        assert(wf_chars(s[k].file));
    }
}

proof fn lemma_sorted_same_groups_equal(s: Seq<RecordModel>, t: Seq<RecordModel>)
    requires
        sorted_by_file(s),
        sorted_by_file(t),
        wf_file_keys(s),
        wf_file_keys(t),
        forall|f: Seq<char>| #[trigger] file_group(s, f) == file_group(t, f),
    ensures
        s == t,
    decreases s.len(),
{
    if s.len() == 0 {
        if t.len() > 0 {
            let f = t.last().file;
            assert(file_group(t, f) == file_group(t.drop_last(), f).push(t.last()));
            assert(file_group(t, f).len() > 0);
            assert(file_group(s, f).len() == 0);
            assert(false);
        }
        assert(s =~= t);
    } else if t.len() == 0 {
        let f = s.last().file;
        assert(file_group(s, f) == file_group(s.drop_last(), f).push(s.last()));
        assert(file_group(s, f).len() > 0);
        assert(file_group(t, f).len() == 0);
        assert(false);
    } else {
        let f1 = s.last().file;
        let g1 = t.last().file;
        assert(file_group(s, f1) == file_group(s.drop_last(), f1).push(s.last()));
        assert(file_group(t, g1) == file_group(t.drop_last(), g1).push(t.last()));
        // The two last keys bound each other, so they are equal.
        if f1 != g1 {
            lemma_file_group_elems(s, g1);
            lemma_file_group_elems(t, f1);
            assert(file_group(s, g1).len() > 0);
            assert(file_group(t, f1).len() > 0);
            let i0: int = file_group(s, g1).len() - 1;
            assert(file_group(s, g1)[i0].file == g1);
            let k = choose|k: int| 0 <= k < s.len() && s[k] == file_group(s, g1)[i0];
            if k < s.len() - 1 {
                assert(lex_le(s[k].file, s[s.len() - 1].file));
            } else {
                lemma_lex_le_refl(g1);
            }
            assert(lex_le(g1, f1));
            let j0: int = file_group(t, f1).len() - 1;
            assert(file_group(t, f1)[j0].file == f1);
            let j = choose|j: int| 0 <= j < t.len() && t[j] == file_group(t, f1)[j0];
            if j < t.len() - 1 {
                assert(lex_le(t[j].file, t[t.len() - 1].file));
            } else {
                lemma_lex_le_refl(f1);
            }
            assert(lex_le(f1, g1));
            assert(wf_chars(s[s.len() - 1].file));
            assert(wf_chars(t[t.len() - 1].file));
            lemma_lex_le_antisym(f1, g1);
            assert(false);
        }
        assert(file_group(s, f1) == file_group(t, f1));
        assert(s.last() == file_group(s, f1).last());
        assert(t.last() == file_group(t, f1).last());
        assert(s.last() == t.last());
        assert(sorted_by_file(s.drop_last())) by {
            assert forall|i: int, j: int|
                0 <= i < j < s.drop_last().len() implies lex_le(
                s.drop_last()[i].file,
                s.drop_last()[j].file,
            ) by {
                assert(s.drop_last()[i] == s[i] && s.drop_last()[j] == s[j]);
                assert(lex_le(s[i].file, s[j].file));
            }
        }
        assert(sorted_by_file(t.drop_last())) by {
            assert forall|i: int, j: int|
                0 <= i < j < t.drop_last().len() implies lex_le(
                t.drop_last()[i].file,
                t.drop_last()[j].file,
            ) by {
                assert(t.drop_last()[i] == t[i] && t.drop_last()[j] == t[j]);
                assert(lex_le(t[i].file, t[j].file));
            }
        }
        assert(wf_file_keys(s.drop_last())) by {
            assert forall|i: int|
                0 <= i < s.drop_last().len() implies wf_chars(s.drop_last()[i].file) by {
                assert(s.drop_last()[i] == s[i]);
            }
        }
        assert(wf_file_keys(t.drop_last())) by {
            assert forall|i: int|
                0 <= i < t.drop_last().len() implies wf_chars(t.drop_last()[i].file) by {
                assert(t.drop_last()[i] == t[i]);
            }
        }
        assert forall|f: Seq<char>| #[trigger] file_group(s.drop_last(), f) == file_group(
            t.drop_last(),
            f,
        ) by {
            if f == f1 {
                assert(file_group(s, f1).drop_last() =~= file_group(s.drop_last(), f1));
                assert(file_group(t, f1).drop_last() =~= file_group(t.drop_last(), f1));
            } else {
                assert(file_group(s.drop_last(), f) == file_group(s, f));
                assert(file_group(t.drop_last(), f) == file_group(t, f));
            }
        }
        lemma_sorted_same_groups_equal(s.drop_last(), t.drop_last());
        assert forall|i: int| 0 <= i < s.len() implies s[i] == t[i] by {
            if i < s.len() - 1 {
                assert(s.drop_last()[i] == t.drop_last()[i]);
            }
        }
        assert(s =~= t);
    }
}

/// Idempotence of the final order: two runs over the same tree collect the
/// same records for every file, though workers finish in different orders,
/// so the collected sequences interleave differently. Since the sort is
/// stable and ordered by a total order on file paths, both runs end with the
/// same sorted sequence — and so with byte-identical output.
pub proof fn lemma_sorted_output_identical(a: Seq<RecordModel>, b: Seq<RecordModel>)
    requires
        wf_file_keys(a),
        wf_file_keys(b),
        forall|f: Seq<char>| #[trigger] file_group(a, f) == file_group(b, f),
    ensures
        sort_by_file(a) == sort_by_file(b),
{
    lemma_sort_by_file_sorted(a);
    lemma_sort_by_file_sorted(b);
    lemma_sort_by_file_wf(a);
    lemma_sort_by_file_wf(b);
    assert forall|f: Seq<char>| #[trigger] file_group(sort_by_file(a), f) == file_group(
        sort_by_file(b),
        f,
    ) by {
        lemma_sort_by_file_stable(a, f);
        lemma_sort_by_file_stable(b, f);
    }
    lemma_sorted_same_groups_equal(sort_by_file(a), sort_by_file(b));
}


/// Whether a path sequence holds no duplicate entry.
pub open spec fn no_dup_paths(s: Seq<Seq<char>>) -> bool {
    forall|i: int, j: int| 0 <= i < j < s.len() ==> #[trigger] s[i] != #[trigger] s[j]
}

/// Whether every path of a sequence is a well-formed character sequence.
pub open spec fn wf_paths(s: Seq<Seq<char>>) -> bool {
    forall|i: int| 0 <= i < s.len() ==> wf_chars(#[trigger] s[i])
}

proof fn lemma_dedup_paths_membership(s: Seq<Seq<char>>, p: Seq<char>)
    ensures
        contains_path(dedup_paths(s), p) <==> contains_path(s, p),
    decreases s.len(),
{
    if s.len() > 0 {
        lemma_dedup_paths_membership(s.drop_last(), p);
        let d = dedup_paths(s);
        let d0 = dedup_paths(s.drop_last());
        if contains_path(s.drop_last(), s.last()) {
            assert(d == d0);
            if contains_path(s, p) {
                let k = choose|k: int| 0 <= k < s.len() && s[k] == p;
                if k < s.len() - 1 {
                    assert(s.drop_last()[k] == p);
                    assert(contains_path(s.drop_last(), p));
                } else {
                    assert(p == s.last());
                    assert(contains_path(s.drop_last(), p));
                }
            }
            if contains_path(s.drop_last(), p) {
                let k = choose|k: int| 0 <= k < s.drop_last().len() && s.drop_last()[k] == p;
                assert(s[k] == p);
                assert(contains_path(s, p));
            }
        } else {
            assert(d == d0.push(s.last()));
            if contains_path(s, p) {
                let k = choose|k: int| 0 <= k < s.len() && s[k] == p;
                if k < s.len() - 1 {
                    assert(s.drop_last()[k] == p);
                    assert(contains_path(s.drop_last(), p));
                    let m = choose|m: int| 0 <= m < d0.len() && d0[m] == p;
                    assert(d[m] == p);
                    assert(contains_path(d, p));
                } else {
                    assert(d[d.len() - 1] == p);
                    assert(contains_path(d, p));
                }
            }
            if contains_path(d, p) {
                let m = choose|m: int| 0 <= m < d.len() && d[m] == p;
                if m < d.len() - 1 {
                    assert(d0[m] == p);
                    assert(contains_path(d0, p));
                    let k = choose|k: int|
                        0 <= k < s.drop_last().len() && s.drop_last()[k] == p;
                    assert(s[k] == p);
                    assert(contains_path(s, p));
                } else {
                    assert(p == s.last());
                    assert(s[s.len() - 1] == p);
                    assert(contains_path(s, p));
                }
            }
        }
    }
}

proof fn lemma_dedup_paths_no_dup(s: Seq<Seq<char>>)
    ensures
        no_dup_paths(dedup_paths(s)),
    decreases s.len(),
{
    if s.len() > 0 {
        lemma_dedup_paths_no_dup(s.drop_last());
        let d = dedup_paths(s);
        let d0 = dedup_paths(s.drop_last());
        if !contains_path(s.drop_last(), s.last()) {
            assert(d == d0.push(s.last()));
            lemma_dedup_paths_membership(s.drop_last(), s.last());
            assert(!contains_path(d0, s.last()));
            assert forall|i: int, j: int| 0 <= i < j < d.len() implies d[i] != d[j] by {
                if j == d.len() - 1 {
                    assert(d[i] == d0[i]);
                    if d0[i] == s.last() {
                        assert(contains_path(d0, s.last()));
                    }
                } else {
                    assert(d[i] == d0[i] && d[j] == d0[j]);
                }
            }
        }
    }
}

proof fn lemma_insert_path_membership(s: Seq<Seq<char>>, x: Seq<char>, p: Seq<char>)
    ensures
        contains_path(insert_path(s, x), p) <==> (p == x || contains_path(s, p)),
    decreases s.len(),
{
    let ins = insert_path(s, x);
    if s.len() == 0 {
        assert(ins == seq![x]);
        if p == x {
            assert(ins[0] == p);
        }
        if contains_path(ins, p) {
            let m = choose|m: int| 0 <= m < ins.len() && ins[m] == p;
            assert(p == x);
        }
    } else if lex_le(s.last(), x) {
        assert(ins == s.push(x));
        if p == x {
            assert(ins[ins.len() - 1] == p);
        }
        if contains_path(s, p) {
            let k = choose|k: int| 0 <= k < s.len() && s[k] == p;
            assert(ins[k] == p);
        }
        if contains_path(ins, p) {
            let m = choose|m: int| 0 <= m < ins.len() && ins[m] == p;
            if m < s.len() {
                assert(s[m] == p);
            }
        }
    } else {
        lemma_insert_path_membership(s.drop_last(), x, p);
        let ins0 = insert_path(s.drop_last(), x);
        assert(ins == ins0.push(s.last()));
        if p == x {
            let m = choose|m: int| 0 <= m < ins0.len() && ins0[m] == p;
            assert(ins[m] == p);
        }
        if contains_path(s, p) {
            let k = choose|k: int| 0 <= k < s.len() && s[k] == p;
            if k < s.len() - 1 {
                assert(s.drop_last()[k] == p);
                assert(contains_path(s.drop_last(), p));
                let m = choose|m: int| 0 <= m < ins0.len() && ins0[m] == p;
                assert(ins[m] == p);
            } else {
                assert(ins[ins.len() - 1] == p);
            }
        }
        if contains_path(ins, p) {
            let m = choose|m: int| 0 <= m < ins.len() && ins[m] == p;
            if m < ins0.len() {
                assert(ins0[m] == p);
                assert(contains_path(ins0, p));
                if p != x {
                    let k = choose|k: int|
                        0 <= k < s.drop_last().len() && s.drop_last()[k] == p;
                    assert(s[k] == p);
                }
            } else {
                assert(p == s.last());
                assert(s[s.len() - 1] == p);
            }
        }
    }
}

proof fn lemma_sort_paths_membership(s: Seq<Seq<char>>, p: Seq<char>)
    ensures
        contains_path(sort_paths(s), p) <==> contains_path(s, p),
    decreases s.len(),
{
    if s.len() > 0 {
        lemma_sort_paths_membership(s.drop_last(), p);
        lemma_insert_path_membership(sort_paths(s.drop_last()), s.last(), p);
        if contains_path(s, p) {
            let k = choose|k: int| 0 <= k < s.len() && s[k] == p;
            if k < s.len() - 1 {
                assert(s.drop_last()[k] == p);
                assert(contains_path(s.drop_last(), p));
            }
        }
        if p != s.last() && contains_path(s.drop_last(), p) {
            let k = choose|k: int| 0 <= k < s.drop_last().len() && s.drop_last()[k] == p;
            assert(s[k] == p);
        }
        if p == s.last() {
            assert(s[s.len() - 1] == p);
        }
    }
}

proof fn lemma_insert_path_no_dup(s: Seq<Seq<char>>, x: Seq<char>)
    requires
        no_dup_paths(s),
        !contains_path(s, x),
    ensures
        no_dup_paths(insert_path(s, x)),
    decreases s.len(),
{
    let ins = insert_path(s, x);
    if s.len() == 0 {
    } else if lex_le(s.last(), x) {
        assert(ins == s.push(x));
        assert forall|i: int, j: int| 0 <= i < j < ins.len() implies ins[i] != ins[j] by {
            if j == ins.len() - 1 {
                if s[i] == x {
                    assert(contains_path(s, x));
                }
            }
        }
    } else {
        assert(!contains_path(s.drop_last(), x)) by {
            if contains_path(s.drop_last(), x) {
                let k = choose|k: int| 0 <= k < s.drop_last().len() && s.drop_last()[k] == x;
                assert(s[k] == x);
            }
        }
        assert(no_dup_paths(s.drop_last())) by {
            assert forall|i: int, j: int|
                0 <= i < j < s.drop_last().len() implies s.drop_last()[i] != s.drop_last()[j] by {
                assert(s.drop_last()[i] == s[i] && s.drop_last()[j] == s[j]);
            }
        }
        lemma_insert_path_no_dup(s.drop_last(), x);
        lemma_insert_path_elems(s.drop_last(), x);
        let ins0 = insert_path(s.drop_last(), x);
        assert(ins == ins0.push(s.last()));
        assert forall|i: int, j: int| 0 <= i < j < ins.len() implies ins[i] != ins[j] by {
            if j == ins.len() - 1 {
                assert(ins[i] == ins0[i]);
                assert(ins[j] == s.last());
                if ins0[i] == x {
                    if x == s.last() {
                        assert(s[s.len() - 1] == x);
                        assert(contains_path(s, x));
                    }
                } else {
                    let k = choose|k: int|
                        0 <= k < s.drop_last().len() && s.drop_last()[k] == ins0[i];
                    assert(s[k] == ins0[i]);
                    if ins0[i] == s.last() {
                        assert(s[k] == s[s.len() - 1]);
                        assert(k < s.len() - 1);
                    }
                }
            } else {
                assert(ins[i] == ins0[i] && ins[j] == ins0[j]);
            }
        }
    }
}

proof fn lemma_sort_paths_no_dup(s: Seq<Seq<char>>)
    requires
        no_dup_paths(s),
    ensures
        no_dup_paths(sort_paths(s)),
    decreases s.len(),
{
    if s.len() > 0 {
        assert(no_dup_paths(s.drop_last())) by {
            assert forall|i: int, j: int|
                0 <= i < j < s.drop_last().len() implies s.drop_last()[i] != s.drop_last()[j] by {
                assert(s.drop_last()[i] == s[i] && s.drop_last()[j] == s[j]);
            }
        }
        lemma_sort_paths_no_dup(s.drop_last());
        lemma_sort_paths_membership(s.drop_last(), s.last());
        assert(!contains_path(s.drop_last(), s.last())) by {
            if contains_path(s.drop_last(), s.last()) {
                let k = choose|k: int|
                    0 <= k < s.drop_last().len() && s.drop_last()[k] == s.last();
                assert(s[k] == s[s.len() - 1]);
                assert(k < s.len() - 1);
            }
        }
        lemma_insert_path_no_dup(sort_paths(s.drop_last()), s.last());
    }
}

proof fn lemma_sorted_nodup_same_set_equal(s: Seq<Seq<char>>, t: Seq<Seq<char>>)
    requires
        sorted_paths(s),
        sorted_paths(t),
        no_dup_paths(s),
        no_dup_paths(t),
        wf_paths(s),
        wf_paths(t),
        forall|p: Seq<char>| contains_path(s, p) <==> #[trigger] contains_path(t, p),
    ensures
        s == t,
    decreases s.len(),
{
    if s.len() == 0 {
        if t.len() > 0 {
            assert(t[t.len() - 1] == t.last());
            assert(contains_path(t, t.last()));
            assert(contains_path(s, t.last()));
            let k = choose|k: int| 0 <= k < s.len() && s[k] == t.last();
            assert(false);
        }
        assert(s =~= t);
    } else if t.len() == 0 {
        assert(s[s.len() - 1] == s.last());
        assert(contains_path(s, s.last()));
        assert(contains_path(t, s.last()));
        let k = choose|k: int| 0 <= k < t.len() && t[k] == s.last();
        assert(false);
    } else {
        let f1 = s.last();
        let g1 = t.last();
        if f1 != g1 {
            assert(s[s.len() - 1] == f1);
            assert(contains_path(s, f1));
            assert(contains_path(t, f1));
            let j = choose|j: int| 0 <= j < t.len() && t[j] == f1;
            if j < t.len() - 1 {
                assert(lex_le(t[j], t[t.len() - 1]));
            } else {
                lemma_lex_le_refl(f1);
            }
            assert(lex_le(f1, g1));
            assert(t[t.len() - 1] == g1);
            assert(contains_path(t, g1));
            assert(contains_path(s, g1));
            let k = choose|k: int| 0 <= k < s.len() && s[k] == g1;
            if k < s.len() - 1 {
                assert(lex_le(s[k], s[s.len() - 1]));
            } else {
                lemma_lex_le_refl(g1);
            }
            assert(lex_le(g1, f1));
            assert(wf_chars(s[s.len() - 1]));
            assert(wf_chars(t[t.len() - 1]));
            lemma_lex_le_antisym(f1, g1);
            assert(false);
        }
        assert(sorted_paths(s.drop_last())) by {
            assert forall|i: int, j: int|
                0 <= i < j < s.drop_last().len() implies lex_le(
                s.drop_last()[i],
                s.drop_last()[j],
            ) by {
                assert(s.drop_last()[i] == s[i] && s.drop_last()[j] == s[j]);
                assert(lex_le(s[i], s[j]));
            }
        }
        assert(sorted_paths(t.drop_last())) by {
            assert forall|i: int, j: int|
                0 <= i < j < t.drop_last().len() implies lex_le(
                t.drop_last()[i],
                t.drop_last()[j],
            ) by {
                assert(t.drop_last()[i] == t[i] && t.drop_last()[j] == t[j]);
                assert(lex_le(t[i], t[j]));
            }
        }
        assert(no_dup_paths(s.drop_last())) by {
            assert forall|i: int, j: int|
                0 <= i < j < s.drop_last().len() implies s.drop_last()[i] != s.drop_last()[j] by {
                assert(s.drop_last()[i] == s[i] && s.drop_last()[j] == s[j]);
            }
        }
        assert(no_dup_paths(t.drop_last())) by {
            assert forall|i: int, j: int|
                0 <= i < j < t.drop_last().len() implies t.drop_last()[i] != t.drop_last()[j] by {
                assert(t.drop_last()[i] == t[i] && t.drop_last()[j] == t[j]);
            }
        }
        assert(wf_paths(s.drop_last())) by {
            assert forall|i: int| 0 <= i < s.drop_last().len() implies wf_chars(
                s.drop_last()[i],
            ) by {
                assert(s.drop_last()[i] == s[i]);
            }
        }
        assert(wf_paths(t.drop_last())) by {
            assert forall|i: int| 0 <= i < t.drop_last().len() implies wf_chars(
                t.drop_last()[i],
            ) by {
                assert(t.drop_last()[i] == t[i]);
            }
        }
        assert forall|p: Seq<char>|
            contains_path(s.drop_last(), p) <==> #[trigger] contains_path(
                t.drop_last(),
                p,
            ) by {
            if contains_path(s.drop_last(), p) {
                let k = choose|k: int| 0 <= k < s.drop_last().len() && s.drop_last()[k] == p;
                assert(s[k] == p);
                assert(p != s.last());
                assert(contains_path(s, p));
                assert(contains_path(t, p));
                let j = choose|j: int| 0 <= j < t.len() && t[j] == p;
                assert(j < t.len() - 1);
                assert(t.drop_last()[j] == p);
            }
            if contains_path(t.drop_last(), p) {
                let j = choose|j: int| 0 <= j < t.drop_last().len() && t.drop_last()[j] == p;
                assert(t[j] == p);
                assert(p != t.last());
                assert(contains_path(t, p));
                assert(contains_path(s, p));
                let k = choose|k: int| 0 <= k < s.len() && s[k] == p;
                assert(k < s.len() - 1);
                assert(s.drop_last()[k] == p);
            }
        }
        lemma_sorted_nodup_same_set_equal(s.drop_last(), t.drop_last());
        assert forall|i: int| 0 <= i < s.len() implies s[i] == t[i] by {
            if i < s.len() - 1 {
                assert(s.drop_last()[i] == t.drop_last()[i]);
            }
        }
        assert(s =~= t);
    }
}

/// Idempotence of the matching-file list: two runs see the same set of
/// matching files, though in different orders; deduplication followed by the
/// sort yields the same list either way.
pub proof fn lemma_list_identical(a: Seq<Seq<char>>, b: Seq<Seq<char>>)
    requires
        wf_paths(a),
        wf_paths(b),
        forall|p: Seq<char>| contains_path(a, p) <==> #[trigger] contains_path(b, p),
    ensures
        sort_paths(dedup_paths(a)) == sort_paths(dedup_paths(b)),
{
    let da = dedup_paths(a);
    let db = dedup_paths(b);
    let sa = sort_paths(da);
    let sb = sort_paths(db);
    lemma_dedup_paths_no_dup(a);
    lemma_dedup_paths_no_dup(b);
    lemma_sort_paths_no_dup(da);
    lemma_sort_paths_no_dup(db);
    lemma_sort_paths_sorted(da);
    lemma_sort_paths_sorted(db);
    assert(wf_paths(sa)) by {
        assert forall|i: int| 0 <= i < sa.len() implies wf_chars(sa[i]) by {
            assert(sa[i] == sa[i]);
            assert(contains_path(sa, sa[i]));
            lemma_sort_paths_membership(da, sa[i]);
            lemma_dedup_paths_membership(a, sa[i]);
            let k = choose|k: int| 0 <= k < a.len() && a[k] == sa[i];
            assert(wf_chars(a[k]));
        }
    }
    assert(wf_paths(sb)) by {
        assert forall|i: int| 0 <= i < sb.len() implies wf_chars(sb[i]) by {
            assert(contains_path(sb, sb[i]));
            lemma_sort_paths_membership(db, sb[i]);
            lemma_dedup_paths_membership(b, sb[i]);
            let k = choose|k: int| 0 <= k < b.len() && b[k] == sb[i];
            assert(wf_chars(b[k]));
        }
    }
    assert forall|p: Seq<char>| contains_path(sa, p) <==> #[trigger] contains_path(sb, p) by {
        lemma_sort_paths_membership(da, p);
        lemma_sort_paths_membership(db, p);
        lemma_dedup_paths_membership(a, p);
        lemma_dedup_paths_membership(b, p);
    }
    lemma_sorted_nodup_same_set_equal(sa, sb);
}

} // verus!
