//! Where files lie, and how the audit log is rotated.

use crate::text;
use vstd::prelude::*;

verus! {

/// The log is rotated once it holds so many bytes.
pub const AUDIT_MAX_SIZE: u64 = 10_485_760;

/// So many old logs are kept.
pub const AUDIT_KEEP: u64 = 5;

/// The path of the rules in a configuration directory.
pub fn rules_path(dir: &str) -> (p: String)
    ensures
        p@ == dir@ + "/rules.toml"@,
{
    text::joined(dir, "/rules.toml")
}

/// The path of the settings in a configuration directory.
pub fn settings_path(dir: &str) -> (p: String)
    ensures
        p@ == dir@ + "/settings"@,
{
    text::joined(dir, "/settings")
}

/// The directory of the audit log in a configuration directory.
pub fn audit_dir_for(base: &str) -> (p: String)
    ensures
        p@ == base@ + "/log"@,
{
    text::joined(base, "/log")
}

/// The path of the audit log in a configuration directory.
pub open spec fn audit_path(base: Seq<char>) -> Seq<char> {
    base + "/log"@ + "/audit.jsonl"@
}

/// The path of the audit log in a configuration directory.
pub fn audit_path_for(base: &str) -> (p: String)
    ensures
        p@ == audit_path(base@),
{
    let dir = audit_dir_for(base);
    text::joined(dir.as_str(), "/audit.jsonl")
}

/// Whether a log of this size is to be rotated.
pub fn should_rotate(len: u64) -> (r: bool)
    ensures
        r == (len >= 10_485_760),
{
    len >= AUDIT_MAX_SIZE
}

/// The line that is written for an alert.
pub fn audit_line(json: &str) -> (line: String)
    ensures
        line@ == json@.push('\n'),
{
    let mut line = json.to_owned();
    line.push('\n');
    line
}

/// The path of the old log number `i`.
pub open spec fn old_log(path: Seq<char>, i: nat) -> Seq<char> {
    path.push('.') + text::digits(i, 10)
}

fn old_log_path(path: &str, i: u64) -> (p: String)
    ensures
        p@ == old_log(path@, i as nat),
{
    let mut p = path.to_owned();
    p.push('.');
    text::push_digits(&mut p, i, 10);
    p
}

/// One change to the files of the log. A change to a file that is not there does
/// nothing.
#[derive(Clone, Debug)]
pub enum FileStep {
    Remove(String),
    Rename(String, String),
}

/// The contents of a change.
pub ghost enum StepView {
    Remove(Seq<char>),
    Rename(Seq<char>, Seq<char>),
}

impl View for FileStep {
    type V = StepView;

    open spec fn view(&self) -> StepView {
        match *self {
            FileStep::Remove(p) => StepView::Remove(p@),
            FileStep::Rename(from, to) => StepView::Rename(from@, to@),
        }
    }
}

/// The contents of a list of changes.
pub open spec fn step_views(v: Seq<FileStep>) -> Seq<StepView> {
    v.map_values(|s: FileStep| s@)
}

/// The changes that move the old logs from `from` down to 1 up by one.
pub open spec fn shifts(path: Seq<char>, from: nat) -> Seq<StepView>
    decreases from,
{
    if from == 0 {
        Seq::empty()
    } else {
        seq![StepView::Rename(old_log(path, from), old_log(path, from + 1))] + shifts(
            path,
            (from - 1) as nat,
        )
    }
}

/// The changes that rotate a log: the oldest goes, every other moves up by one, and
/// the current log becomes number 1.
pub open spec fn rotation(path: Seq<char>) -> Seq<StepView> {
    (seq![StepView::Remove(old_log(path, 5))] + shifts(path, 4)).push(
        StepView::Rename(path, old_log(path, 1)),
    )
}

/// The changes that rotate the audit log in a configuration directory.
pub fn rotate_audit_in(base: &str) -> (steps: Vec<FileStep>)
    ensures
        step_views(steps@) == rotation(audit_path(base@)),
{
    let path = audit_path_for(base);
    let mut steps: Vec<FileStep> = Vec::new();
    steps.push(FileStep::Remove(old_log_path(path.as_str(), AUDIT_KEEP)));
    let ghost first = seq![StepView::Remove(old_log(path@, 5))];
    let mut i: u64 = AUDIT_KEEP - 1;
    assert(step_views(steps@) =~= first);
    assert(step_views(steps@) + shifts(path@, i as nat) =~= first + shifts(path@, 4));
    while i > 0
        invariant
            i <= 4,
            path@ == audit_path(base@),
            first + shifts(path@, 4) == step_views(steps@) + shifts(path@, i as nat),
        decreases i,
    {
        let ghost before = steps@;
        let from = old_log_path(path.as_str(), i);
        let to = old_log_path(path.as_str(), i + 1);
        let ghost step = StepView::Rename(from@, to@);
        steps.push(FileStep::Rename(from, to));
        assert(step_views(steps@) =~= step_views(before).push(step));
        assert(step_views(steps@) + shifts(path@, (i - 1) as nat) =~= step_views(before) + shifts(
            path@,
            i as nat,
        ));
        i -= 1;
    }
    assert(step_views(steps@) =~= first + shifts(path@, 4));
    let ghost before = steps@;
    let to = old_log_path(path.as_str(), 1);
    let ghost last = StepView::Rename(path@, to@);
    steps.push(FileStep::Rename(path, to));
    assert(step_views(steps@) =~= step_views(before).push(last));
    steps
}

/// Files by their paths, after a change.
pub open spec fn after_step(files: Map<Seq<char>, Seq<u8>>, s: StepView) -> Map<
    Seq<char>,
    Seq<u8>,
> {
    match s {
        StepView::Remove(p) => files.remove(p),
        StepView::Rename(from, to) => if files.contains_key(from) {
            files.remove(from).insert(to, files[from])
        } else {
            files
        },
    }
}

/// Files by their paths, after some changes.
pub open spec fn after_steps(files: Map<Seq<char>, Seq<u8>>, steps: Seq<StepView>) -> Map<
    Seq<char>,
    Seq<u8>,
>
    decreases steps.len(),
{
    if steps.len() == 0 {
        files
    } else {
        after_step(after_steps(files, steps.drop_last()), steps.last())
    }
}

/// `a` holds under the path `p` what `b` holds under the path `q`.
pub open spec fn same_file(
    a: Map<Seq<char>, Seq<u8>>,
    p: Seq<char>,
    b: Map<Seq<char>, Seq<u8>>,
    q: Seq<char>,
) -> bool {
    &&& a.contains_key(p) == b.contains_key(q)
    &&& b.contains_key(q) ==> a[p] == b[q]
}

proof fn lemma_old_logs_differ(path: Seq<char>, i: nat, j: nat)
    requires
        i != j,
    ensures
        old_log(path, i) != old_log(path, j),
        old_log(path, i) != path,
{
    text::lemma_digits(i, 10);
    text::lemma_digits(j, 10);
    let n = path.len() + 1;
    assert(old_log(path, i).skip(n as int) =~= text::digits(i, 10));
    assert(old_log(path, j).skip(n as int) =~= text::digits(j, 10));
    assert(old_log(path, i).len() > path.len());
}

/// Rotation moves the current log to number 1 and every old log up by one, drops the
/// oldest, and touches nothing else.
pub proof fn law_rotation_shifts_the_logs(files: Map<Seq<char>, Seq<u8>>, path: Seq<char>)
    ensures
        ({
            let after = after_steps(files, rotation(path));
            &&& !after.contains_key(path)
            &&& same_file(after, old_log(path, 1), files, path)
            &&& same_file(after, old_log(path, 2), files, old_log(path, 1))
            &&& same_file(after, old_log(path, 3), files, old_log(path, 2))
            &&& same_file(after, old_log(path, 4), files, old_log(path, 3))
            &&& same_file(after, old_log(path, 5), files, old_log(path, 4))
            &&& forall|other: Seq<char>|
                other != path && other != old_log(path, 1) && other != old_log(path, 2) && other
                    != old_log(path, 3) && other != old_log(path, 4) && other != old_log(path, 5)
                    ==> #[trigger] same_file(after, other, files, other)
        }),
{
    let (l1, l2, l3, l4, l5) = (
        old_log(path, 1),
        old_log(path, 2),
        old_log(path, 3),
        old_log(path, 4),
        old_log(path, 5),
    );
    lemma_old_logs_differ(path, 1, 2);
    lemma_old_logs_differ(path, 1, 3);
    lemma_old_logs_differ(path, 1, 4);
    lemma_old_logs_differ(path, 1, 5);
    lemma_old_logs_differ(path, 2, 3);
    lemma_old_logs_differ(path, 2, 4);
    lemma_old_logs_differ(path, 2, 5);
    lemma_old_logs_differ(path, 3, 4);
    lemma_old_logs_differ(path, 3, 5);
    lemma_old_logs_differ(path, 4, 5);
    lemma_old_logs_differ(path, 5, 1);
    let s0 = StepView::Remove(l5);
    let s1 = StepView::Rename(l4, l5);
    let s2 = StepView::Rename(l3, l4);
    let s3 = StepView::Rename(l2, l3);
    let s4 = StepView::Rename(l1, l2);
    let s5 = StepView::Rename(path, l1);
    reveal_with_fuel(shifts, 5);
    let all = rotation(path);
    assert(all =~= seq![s0, s1, s2, s3, s4, s5]);
    let p5 = seq![s0, s1, s2, s3, s4];
    let p4 = seq![s0, s1, s2, s3];
    let p3 = seq![s0, s1, s2];
    let p2 = seq![s0, s1];
    let p1 = seq![s0];
    assert(all.drop_last() =~= p5);
    assert(p5.drop_last() =~= p4);
    assert(p4.drop_last() =~= p3);
    assert(p3.drop_last() =~= p2);
    assert(p2.drop_last() =~= p1);
    assert(p1.drop_last() =~= Seq::<StepView>::empty());
    let f0 = after_steps(files, p1.drop_last());
    let f1 = after_steps(files, p1);
    let f2 = after_steps(files, p2);
    let f3 = after_steps(files, p3);
    let f4 = after_steps(files, p4);
    let f5 = after_steps(files, p5);
    let f6 = after_steps(files, all);
    assert(f0 == files);
    assert(f1 == after_step(f0, s0));
    assert(f2 == after_step(f1, s1));
    assert(f3 == after_step(f2, s2));
    assert(f4 == after_step(f3, s3));
    assert(f5 == after_step(f4, s4));
    assert(f6 == after_step(f5, s5));
}

/// The audit log lies in the directory `log` below the configuration directory, and its
/// old ones beside it, under the numbers 1 to 5.
pub proof fn law_audit_paths(base: Seq<char>, path: Seq<char>)
    ensures
        audit_path(base) == base + "/log/audit.jsonl"@,
        old_log(path, 1) == path + ".1"@,
        old_log(path, 2) == path + ".2"@,
        old_log(path, 3) == path + ".3"@,
        old_log(path, 4) == path + ".4"@,
        old_log(path, 5) == path + ".5"@,
{
    reveal_strlit("/log/audit.jsonl");
    reveal_strlit("/log");
    reveal_strlit("/audit.jsonl");
    assert(audit_path(base) =~= base + "/log/audit.jsonl"@);
    reveal_strlit(".1");
    reveal_strlit(".2");
    reveal_strlit(".3");
    reveal_strlit(".4");
    reveal_strlit(".5");
    assert(old_log(path, 1) =~= path + ".1"@);
    assert(old_log(path, 2) =~= path + ".2"@);
    assert(old_log(path, 3) =~= path + ".3"@);
    assert(old_log(path, 4) =~= path + ".4"@);
    assert(old_log(path, 5) =~= path + ".5"@);
}

} // verus!
