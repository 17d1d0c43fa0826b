//! The decisions of the similarity report: which notebooks match a question,
//! which notebook a student is judged by, which pairs of students are
//! compared, and which pairs the table shows.
use vstd::prelude::*;
use vstd::string::StringSliceAdditionalSpecFns;
use crate::chars::str_equal;

verus! {

/// `needle` occurs in `hay` starting at position `i`.
pub open spec fn occurs_at(hay: Seq<u8>, needle: Seq<u8>, i: int) -> bool {
    0 <= i && i + needle.len() <= hay.len() && hay.subrange(i, i + needle.len()) == needle
}

/// `needle` occurs somewhere in `hay` (the empty needle occurs everywhere).
pub open spec fn contains_bytes(hay: Seq<u8>, needle: Seq<u8>) -> bool {
    exists|i: int| occurs_at(hay, needle, i)
}

/// `hay` ends with `needle`.
pub open spec fn ends_with_bytes(hay: Seq<u8>, needle: Seq<u8>) -> bool {
    needle.len() <= hay.len() && occurs_at(hay, needle, hay.len() - needle.len())
}

/// A notebook file name that belongs to a question: it ends in `.ipynb` and
/// holds the question's text.
pub open spec fn notebook_name_matches(filename: Seq<u8>, question: Seq<u8>) -> bool {
    ends_with_bytes(filename, ".ipynb".spec_bytes()) && contains_bytes(filename, question)
}

fn occurs_at_exec(hay: &[u8], needle: &[u8], i: usize) -> (res: bool)
    requires
        i + needle@.len() <= hay@.len(),
    ensures
        res == occurs_at(hay@, needle@, i as int),
{
    let hay_len = hay.len();
    let mut k: usize = 0;
    while k < needle.len()
        invariant
            hay_len == hay@.len(),
            i + needle@.len() <= hay@.len(),
            k <= needle@.len(),
            forall|m: int| 0 <= m < k ==> hay@[i + m] == needle@[m],
        decreases needle.len() - k,
    {
        if hay[i + k] != needle[k] {
            assert(hay@.subrange(i as int, i + needle@.len())[k as int] != needle@[k as int]);
            return false;
        }
        k += 1;
    }
    assert(hay@.subrange(i as int, i + needle@.len()) =~= needle@);
    true
}

fn contains_exec(hay: &[u8], needle: &[u8]) -> (res: bool)
    ensures
        res == contains_bytes(hay@, needle@),
{
    if needle.len() > hay.len() {
        return false;
    }
    let last = hay.len() - needle.len();
    let mut i: usize = 0;
    loop
        invariant
            last + needle@.len() == hay@.len(),
            i <= last,
            forall|m: int| 0 <= m < i ==> !occurs_at(hay@, needle@, m),
        decreases last - i,
    {
        if occurs_at_exec(hay, needle, i) {
            return true;
        }
        if i == last {
            return false;
        }
        i += 1;
    }
}

/// Whether a notebook's file name belongs to the question: it ends in
/// `.ipynb` and contains the question's text.
pub fn is_question_notebook(filename: &str, question: &str) -> (res: bool)
    ensures
        res == notebook_name_matches(filename.spec_bytes(), question.spec_bytes()),
{
    let name = filename.as_bytes();
    let suffix = ".ipynb".as_bytes();
    let ends = if suffix.len() <= name.len() {
        occurs_at_exec(name, suffix, name.len() - suffix.len())
    } else {
        false
    };
    ends && contains_exec(name, question.as_bytes())
}

/// Every name made of some text, the question, more text and `.ipynb`
/// belongs to the question, wherever the question stands in it (at the very
/// start included) and whatever the question is.
pub proof fn lemma_name_with_question_matches(p: Seq<u8>, question: Seq<u8>, s: Seq<u8>)
    ensures
        notebook_name_matches(p + question + s + ".ipynb".spec_bytes(), question),
{
    let e = ".ipynb".spec_bytes();
    let f = p + question + s + e;
    assert(f.subrange(p.len() as int, (p.len() + question.len()) as int) =~= question);
    assert(occurs_at(f, question, p.len() as int));
    assert(f.subrange(f.len() - e.len(), f.len() - e.len() + e.len()) =~= e);
    assert(occurs_at(f, e, f.len() - e.len()));
}

/// A name that belongs to the question is some text, the question and more
/// text, and it ends in `.ipynb`.
pub proof fn lemma_matching_name_holds_question(f: Seq<u8>, question: Seq<u8>)
    requires
        notebook_name_matches(f, question),
    ensures
        exists|p: Seq<u8>, s: Seq<u8>| #[trigger] (p + question + s) == f,
        exists|r: Seq<u8>| #[trigger] (r + ".ipynb".spec_bytes()) == f,
{
    let e = ".ipynb".spec_bytes();
    let i = choose|i: int| occurs_at(f, question, i);
    let p = f.take(i);
    let s = f.skip(i + question.len());
    assert(p + question + s =~= f);
    let r = f.take(f.len() - e.len());
    assert(r + e =~= f);
}

/// What to do with one student's directory.
#[derive(Clone, Copy, PartialEq, Eq, Structural, Debug)]
pub enum NotebookChoice {
    /// The student has no directory for the assignment: warn and skip.
    MissingAssignmentDir,
    /// No notebook matches the question: warn and skip.
    NoMatchingNotebook,
    /// Use the first matching notebook (in path order); warn when more than
    /// one matched.
    UseFirst { ambiguous: bool },
}

/// Decides, from whether the student's assignment directory exists and how
/// many of its notebooks match the question, whether the student is skipped
/// or which notebook is used.
pub fn choose_notebook(assignment_dir_exists: bool, match_count: usize) -> (res: NotebookChoice)
    ensures
        !assignment_dir_exists ==> res == NotebookChoice::MissingAssignmentDir,
        assignment_dir_exists && match_count == 0 ==> res == NotebookChoice::NoMatchingNotebook,
        assignment_dir_exists && match_count > 0 ==> res == (NotebookChoice::UseFirst {
            ambiguous: match_count > 1,
        }),
{
    if !assignment_dir_exists {
        NotebookChoice::MissingAssignmentDir
    } else if match_count == 0 {
        NotebookChoice::NoMatchingNotebook
    } else {
        NotebookChoice::UseFirst { ambiguous: match_count > 1 }
    }
}

/// A setting of the run that cannot be used.
#[derive(Clone, Copy, PartialEq, Eq, Structural, Debug)]
pub enum SettingError {
    /// A boilerplate file was given without the id of its cell.
    BoilerplateCellIdMissing,
    /// The table was asked to show no row at all.
    MaxResultsZero,
}

/// Checks the settings that are counts and presences: a boilerplate file
/// needs the id of its cell, and the table shows at least one row. The first
/// failed check is reported.
pub fn check_settings(has_boilerplate_file: bool, has_boilerplate_cell_id: bool, max_results: usize) -> (res:
    Result<(), SettingError>)
    ensures
        has_boilerplate_file && !has_boilerplate_cell_id ==> res == Err::<(), SettingError>(
            SettingError::BoilerplateCellIdMissing,
        ),
        !(has_boilerplate_file && !has_boilerplate_cell_id) && max_results == 0 ==> res == Err::<
            (),
            SettingError,
        >(SettingError::MaxResultsZero),
        !(has_boilerplate_file && !has_boilerplate_cell_id) && max_results > 0 ==> res is Ok,
{
    if has_boilerplate_file && !has_boilerplate_cell_id {
        Err(SettingError::BoilerplateCellIdMissing)
    } else if max_results == 0 {
        Err(SettingError::MaxResultsZero)
    } else {
        Ok(())
    }
}

/// A comparison needs at least two submissions.
pub fn enough_submissions(count: usize) -> (res: bool)
    ensures
        res == (count >= 2),
{
    count >= 2
}

/// The pair of students at positions `a` and `b` is compared: there is no
/// target student, or one of the two is the target.
pub open spec fn pair_wanted(students: Seq<String>, target: Option<Seq<char>>, a: int, b: int) -> bool {
    match target {
        None => true,
        Some(t) => students[a]@ == t || students[b]@ == t,
    }
}

/// `p` comes before `q` in row-major order.
pub open spec fn pair_before(p: (usize, usize), q: (usize, usize)) -> bool {
    p.0 < q.0 || (p.0 == q.0 && p.1 < q.1)
}

/// The view of an optional target name.
pub open spec fn target_view(target: Option<&str>) -> Option<Seq<char>> {
    match target {
        Some(t) => Some(t@),
        None => None,
    }
}

/// The pairs of positions `(a, b)`, `a < b`, of the students to compare, in
/// row-major order: all pairs, or, with a target student, those that
/// include the target.
pub fn candidate_pairs(students: &Vec<String>, target: Option<&str>) -> (res: Vec<(usize, usize)>)
    ensures
        forall|k: int|
            0 <= k < res@.len() ==> {
                &&& (#[trigger] res@[k]).0 < res@[k].1
                &&& res@[k].1 < students@.len()
                &&& pair_wanted(students@, target_view(target), res@[k].0 as int, res@[k].1 as int)
            },
        forall|k1: int, k2: int| 0 <= k1 < k2 < res@.len() ==> pair_before(res@[k1], res@[k2]),
        forall|a: int, b: int|
            0 <= a < b < students@.len() && pair_wanted(students@, target_view(target), a, b)
                ==> exists|k: int| 0 <= k < res@.len() && res@[k] == (a as usize, b as usize),
{
    let n = students.len();
    let mut res: Vec<(usize, usize)> = Vec::new();
    let mut i: usize = 0;
    while i < n
        invariant
            n == students@.len(),
            i <= n,
            forall|k: int|
                0 <= k < res@.len() ==> {
                    &&& (#[trigger] res@[k]).0 < res@[k].1
                    &&& res@[k].1 < n
                    &&& res@[k].0 < i
                    &&& pair_wanted(students@, target_view(target), res@[k].0 as int, res@[k].1 as int)
                },
            forall|k1: int, k2: int| 0 <= k1 < k2 < res@.len() ==> pair_before(res@[k1], res@[k2]),
            forall|a: int, b: int|
                0 <= a < i && a < b < n && pair_wanted(students@, target_view(target), a, b)
                    ==> exists|k: int| 0 <= k < res@.len() && res@[k] == (a as usize, b as usize),
        decreases n - i,
    {
        let mut j: usize = i + 1;
        while j < n
            invariant
                n == students@.len(),
                i < n,
                i + 1 <= j <= n,
                forall|k: int|
                    0 <= k < res@.len() ==> {
                        &&& (#[trigger] res@[k]).0 < res@[k].1
                        &&& res@[k].1 < n
                        &&& (res@[k].0 < i || (res@[k].0 == i && res@[k].1 < j))
                        &&& pair_wanted(students@, target_view(target), res@[k].0 as int, res@[k].1 as int)
                    },
                forall|k1: int, k2: int| 0 <= k1 < k2 < res@.len() ==> pair_before(res@[k1], res@[k2]),
                forall|a: int, b: int|
                    ((0 <= a < i && a < b < n) || (a == i && a < b < j)) && pair_wanted(
                        students@,
                        target_view(target),
                        a,
                        b,
                    ) ==> exists|k: int| 0 <= k < res@.len() && res@[k] == (a as usize, b as usize),
            decreases n - j,
        {
            let wanted = match target {
                None => true,
                Some(t) => str_equal(students[i].as_str(), t) || str_equal(students[j].as_str(), t),
            };
            if wanted {
                let ghost old_res = res@;
                res.push((i, j));
                assert forall|a: int, b: int|
                    ((0 <= a < i && a < b < n) || (a == i && a < b < j + 1)) && pair_wanted(
                        students@,
                        target_view(target),
                        a,
                        b,
                    ) implies exists|k: int| 0 <= k < res@.len() && res@[k] == (a as usize, b as usize) by {
                    if a == i && b == j {
                        assert(res@[old_res.len() as int] == (a as usize, b as usize));
                    } else {
                        let k = choose|k: int| 0 <= k < old_res.len() && old_res[k] == (a as usize, b as usize);
                        assert(res@[k] == old_res[k]);
                    }
                }
            }
            j += 1;
        }
        i += 1;
    }
    res
}

/// The positions of the flagged pairs, in order.
pub open spec fn flagged_positions(flags: Seq<bool>) -> Seq<usize>
    decreases flags.len(),
{
    if flags.len() == 0 {
        Seq::empty()
    } else if flags.last() {
        flagged_positions(flags.drop_last()).push((flags.len() - 1) as usize)
    } else {
        flagged_positions(flags.drop_last())
    }
}

/// The positions `0, 1, ..., n - 1`.
pub open spec fn first_positions(n: int) -> Seq<usize> {
    Seq::new(n as nat, |k: int| k as usize)
}

/// The positions of the pairs whose score reaches the threshold (`flags[k]`
/// tells whether pair `k` does), in order.
pub fn flagged_pairs(flags: &[bool]) -> (res: Vec<usize>)
    ensures
        res@ == flagged_positions(flags@),
{
    let mut res: Vec<usize> = Vec::new();
    let mut k: usize = 0;
    while k < flags.len()
        invariant
            k <= flags@.len(),
            res@ == flagged_positions(flags@.take(k as int)),
        decreases flags.len() - k,
    {
        assert(flags@.take(k + 1).drop_last() =~= flags@.take(k as int));
        if flags[k] {
            res.push(k);
        }
        k += 1;
    }
    assert(flags@.take(flags.len() as int) =~= flags@);
    res
}

/// The rows of the table: the first `max_results` pairs, or, when only high
/// pairs are shown, the first `max_results` pairs whose score reaches the
/// threshold; `flags[k]` tells whether pair `k` does.
pub fn select_table_rows(flags: &[bool], max_results: usize, table_only_high: bool) -> (res: Vec<usize>)
    ensures
        table_only_high ==> res@ == flagged_positions(flags@).take(
            if flagged_positions(flags@).len() < max_results {
                flagged_positions(flags@).len() as int
            } else {
                max_results as int
            },
        ),
        !table_only_high ==> res@ == first_positions(
            if flags@.len() < max_results {
                flags@.len() as int
            } else {
                max_results as int
            },
        ),
        res@.len() <= max_results,
{
    if table_only_high {
        let all = flagged_pairs(flags);
        let mut res: Vec<usize> = Vec::new();
        let mut k: usize = 0;
        while k < all.len() && k < max_results
            invariant
                k <= all@.len(),
                k <= max_results,
                res@ == all@.take(k as int),
            decreases all.len() - k,
        {
            res.push(all[k]);
            k += 1;
            assert(res@ =~= all@.take(k as int));
        }
        res
    } else {
        let mut res: Vec<usize> = Vec::new();
        let mut k: usize = 0;
        while k < flags.len() && k < max_results
            invariant
                k <= flags@.len(),
                k <= max_results,
                res@ == first_positions(k as int),
            decreases flags.len() - k,
        {
            res.push(k);
            k += 1;
            assert(res@ =~= first_positions(k as int));
        }
        res
    }
}

} // verus!
