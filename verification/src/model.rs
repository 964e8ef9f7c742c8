//! The records that a report is built from.
use vstd::prelude::*;

verus! {

/// One commit of one project.
#[derive(Debug, Clone)]
pub struct CommitEntry {
    pub hash: String,
    /// The author date, `YYYY-MM-DD`.
    pub date: String,
    pub commit_type: String,
    pub scope: String,
    pub subject: String,
    pub project: String,
    pub insertions: usize,
    pub deletions: usize,
}

/// What a commit records, as plain values.
pub struct CommitRecord {
    pub hash: Seq<char>,
    pub date: Seq<char>,
    pub commit_type: Seq<char>,
    pub scope: Seq<char>,
    pub subject: Seq<char>,
    pub project: Seq<char>,
    pub insertions: nat,
    pub deletions: nat,
}

impl View for CommitEntry {
    type V = CommitRecord;

    open spec fn view(&self) -> CommitRecord {
        CommitRecord {
            hash: self.hash@,
            date: self.date@,
            commit_type: self.commit_type@,
            scope: self.scope@,
            subject: self.subject@,
            project: self.project@,
            insertions: self.insertions as nat,
            deletions: self.deletions as nat,
        }
    }
}

/// One archived OpenSpec proposal of one project.
#[derive(Debug, Clone)]
pub struct ProposalEntry {
    pub slug: String,
    /// The archive date, `YYYY-MM-DD`.
    pub date: String,
    pub project: String,
    pub description: String,
    pub task_count: usize,
}

/// A copy of an optional string.
pub fn copy_opt_string(s: &Option<String>) -> (r: Option<String>)
    ensures
        r == *s,
{
    match s {
        Some(x) => Some(x.clone()),
        None => None,
    }
}

/// A copy of a list of strings.
pub fn copy_strings(v: &Vec<String>) -> (r: Vec<String>)
    ensures
        r@ == v@,
{
    let mut r: Vec<String> = Vec::new();
    let mut i: usize = 0;
    while i < v.len()
        invariant
            i <= v@.len(),
            r@ == v@.take(i as int),
        decreases v@.len() - i,
    {
        r.push(v[i].clone());
        assert(v@.take(i + 1) == v@.take(i as int).push(v@[i as int]));
        i = i + 1;
    }
    assert(v@.take(v@.len() as int) == v@);
    r
}

/// A copy of an optional list of strings.
pub fn copy_opt_strings(v: &Option<Vec<String>>) -> (r: Option<Vec<String>>)
    ensures
        match (r, *v) {
            (Some(a), Some(b)) => a@ == b@,
            (None, None) => true,
            _ => false,
        },
{
    match v {
        Some(x) => Some(copy_strings(x)),
        None => None,
    }
}

impl CommitEntry {
    /// A copy of this commit.
    pub fn duplicate(&self) -> (r: CommitEntry)
        ensures
            r == *self,
    {
        CommitEntry {
            hash: self.hash.clone(),
            date: self.date.clone(),
            commit_type: self.commit_type.clone(),
            scope: self.scope.clone(),
            subject: self.subject.clone(),
            project: self.project.clone(),
            insertions: self.insertions,
            deletions: self.deletions,
        }
    }

    /// The lines this commit changed: insertions and deletions together.
    pub open spec fn lines(self) -> int {
        self.insertions + self.deletions
    }
}

impl ProposalEntry {
    /// A copy of this proposal.
    pub fn duplicate(&self) -> (r: ProposalEntry)
        ensures
            r == *self,
    {
        ProposalEntry {
            slug: self.slug.clone(),
            date: self.date.clone(),
            project: self.project.clone(),
            description: self.description.clone(),
            task_count: self.task_count,
        }
    }
}

/// The lines changed by all the commits together.
pub open spec fn total_lines(cs: Seq<CommitEntry>) -> int
    decreases cs.len(),
{
    if cs.len() == 0 {
        0
    } else {
        total_lines(cs.drop_last()) + cs.last().lines()
    }
}

/// The lines inserted by all the commits together.
pub open spec fn total_insertions(cs: Seq<CommitEntry>) -> int
    decreases cs.len(),
{
    if cs.len() == 0 {
        0
    } else {
        total_insertions(cs.drop_last()) + cs.last().insertions
    }
}

/// The lines deleted by all the commits together.
pub open spec fn total_deletions(cs: Seq<CommitEntry>) -> int
    decreases cs.len(),
{
    if cs.len() == 0 {
        0
    } else {
        total_deletions(cs.drop_last()) + cs.last().deletions
    }
}

/// Insertions and deletions add up to the lines changed.
pub proof fn lemma_totals(cs: Seq<CommitEntry>)
    ensures
        total_lines(cs) == total_insertions(cs) + total_deletions(cs),
        0 <= total_insertions(cs) <= total_lines(cs),
        0 <= total_deletions(cs) <= total_lines(cs),
    decreases cs.len(),
{
    if cs.len() > 0 {
        lemma_totals(cs.drop_last());
    }
}

/// The total of a prefix is at most the total of the whole.
pub proof fn lemma_total_prefix(cs: Seq<CommitEntry>, k: int)
    requires
        0 <= k <= cs.len(),
    ensures
        total_lines(cs.take(k)) <= total_lines(cs),
        total_insertions(cs.take(k)) <= total_insertions(cs),
        total_deletions(cs.take(k)) <= total_deletions(cs),
    decreases cs.len(),
{
    if k == cs.len() {
        assert(cs.take(k) == cs);
    } else {
        assert(cs.drop_last().take(k) == cs.take(k));
        lemma_total_prefix(cs.drop_last(), k);
    }
}

/// The lines changed by all the commits, added up.
pub fn sum_lines(cs: &[CommitEntry]) -> (r: usize)
    requires
        total_lines(cs@) <= usize::MAX,
    ensures
        r == total_lines(cs@),
{
    let mut acc: usize = 0;
    let mut i: usize = 0;
    while i < cs.len()
        invariant
            i <= cs@.len(),
            total_lines(cs@) <= usize::MAX,
            acc == total_lines(cs@.take(i as int)),
        decreases cs@.len() - i,
    {
        proof {
            lemma_total_prefix(cs@, i + 1);
            lemma_totals(cs@.take(i + 1));
            assert(cs@.take(i + 1).drop_last() == cs@.take(i as int));
        }
        acc = acc + cs[i].insertions + cs[i].deletions;
        i = i + 1;
    }
    assert(cs@.take(cs@.len() as int) == cs@);
    acc
}

/// The lines inserted and deleted by all the commits, added up.
pub fn sum_insertions_deletions(cs: &[CommitEntry]) -> (r: (usize, usize))
    requires
        total_lines(cs@) <= usize::MAX,
    ensures
        r.0 == total_insertions(cs@),
        r.1 == total_deletions(cs@),
{
    let mut ins: usize = 0;
    let mut del: usize = 0;
    let mut i: usize = 0;
    proof {
        lemma_totals(cs@);
    }
    while i < cs.len()
        invariant
            i <= cs@.len(),
            total_insertions(cs@) <= usize::MAX,
            total_deletions(cs@) <= usize::MAX,
            ins == total_insertions(cs@.take(i as int)),
            del == total_deletions(cs@.take(i as int)),
        decreases cs@.len() - i,
    {
        proof {
            lemma_total_prefix(cs@, i + 1);
            lemma_totals(cs@.take(i + 1));
            assert(cs@.take(i + 1).drop_last() == cs@.take(i as int));
        }
        ins = ins + cs[i].insertions;
        del = del + cs[i].deletions;
        i = i + 1;
    }
    assert(cs@.take(cs@.len() as int) == cs@);
    (ins, del)
}

} // verus!
