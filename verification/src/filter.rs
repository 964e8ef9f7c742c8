//! Keeping the commits and proposals that the configured filters allow.
use vstd::prelude::*;
use crate::config::{Config, FilterConfig};
use crate::model::{CommitEntry, ProposalEntry};
use crate::text::{lex_lt, str_eq, str_less};

verus! {

/// Some string of `v` equals `s`.
pub open spec fn listed(v: Seq<String>, s: Seq<char>) -> bool {
    exists|i: int| 0 <= i < v.len() && #[trigger] v[i]@ == s
}

/// `date` is not before `since`, when a `since` is set.
pub open spec fn after_since(since: Option<String>, date: Seq<char>) -> bool {
    match since {
        Some(s) => !lex_lt(date, s@),
        None => true,
    }
}

/// `date` is not after `until`, when an `until` is set.
pub open spec fn before_until(until: Option<String>, date: Seq<char>) -> bool {
    match until {
        Some(u) => !lex_lt(u@, date),
        None => true,
    }
}

/// The filters keep the commit: its hash is not excluded (whole hashes only),
/// its date lies within `since..=until` (compared as strings), and its type
/// is among the listed types when types are listed.  The author filter is
/// applied when commits are read, not here.
pub open spec fn keeps_commit(f: FilterConfig, c: CommitEntry) -> bool {
    &&& match f.exclude_hashes {
        Some(h) => !listed(h@, c.hash@),
        None => true,
    }
    &&& after_since(f.since, c.date@)
    &&& before_until(f.until, c.date@)
    &&& match f.types {
        Some(t) => listed(t@, c.commit_type@),
        None => true,
    }
}

/// The filters keep the proposal: its date lies within `since..=until`.
pub open spec fn keeps_proposal(f: FilterConfig, p: ProposalEntry) -> bool {
    after_since(f.since, p.date@) && before_until(f.until, p.date@)
}

/// Whether some string of `v` equals `s`.
pub fn is_listed(v: &Vec<String>, s: &String) -> (r: bool)
    ensures
        r == listed(v@, s@),
{
    let mut i: usize = 0;
    while i < v.len()
        invariant
            i <= v@.len(),
            forall|j: int| 0 <= j < i ==> v@[j]@ != s@,
        decreases v@.len() - i,
    {
        if str_eq(v[i].as_str(), s.as_str()) {
            return true;
        }
        i = i + 1;
    }
    false
}

fn after_since_exec(since: &Option<String>, date: &String) -> (r: bool)
    ensures
        r == after_since(*since, date@),
{
    match since {
        Some(s) => !str_less(date.as_str(), s.as_str()),
        None => true,
    }
}

fn before_until_exec(until: &Option<String>, date: &String) -> (r: bool)
    ensures
        r == before_until(*until, date@),
{
    match until {
        Some(u) => !str_less(u.as_str(), date.as_str()),
        None => true,
    }
}

/// Whether the filters keep the commit.
pub fn keep_commit(f: &FilterConfig, c: &CommitEntry) -> (r: bool)
    ensures
        r == keeps_commit(*f, *c),
{
    if let Some(h) = &f.exclude_hashes {
        if is_listed(h, &c.hash) {
            return false;
        }
    }
    if !after_since_exec(&f.since, &c.date) {
        return false;
    }
    if !before_until_exec(&f.until, &c.date) {
        return false;
    }
    if let Some(t) = &f.types {
        if !is_listed(t, &c.commit_type) {
            return false;
        }
    }
    true
}

/// The commits and proposals that the configured filters keep, in their
/// order.
pub fn apply_filters(commits: &[CommitEntry], proposals: &[ProposalEntry], config: &Config) -> (r: (
    Vec<CommitEntry>,
    Vec<ProposalEntry>,
))
    ensures
        r.0@ == commits@.filter(|c: CommitEntry| keeps_commit(config.spec_filters(), c)),
        r.1@ == proposals@.filter(|p: ProposalEntry| keeps_proposal(config.spec_filters(), p)),
{
    let f = config.filters();
    let ghost g = config.spec_filters();
    assert(forall|c: CommitEntry| keeps_commit(f, c) == keeps_commit(g, c));
    assert(forall|p: ProposalEntry| keeps_proposal(f, p) == keeps_proposal(g, p));
    let mut kept: Vec<CommitEntry> = Vec::new();
    let mut i: usize = 0;
    while i < commits.len()
        invariant
            i <= commits@.len(),
            f.same(g),
            forall|c: CommitEntry| keeps_commit(f, c) == keeps_commit(g, c),
            kept@ == commits@.take(i as int).filter(|c: CommitEntry| keeps_commit(g, c)),
        decreases commits@.len() - i,
    {
        proof {
            reveal_with_fuel(Seq::<CommitEntry>::filter, 1);
            assert(commits@.take(i + 1).drop_last() == commits@.take(i as int));
            assert(commits@.take(i + 1).last() == commits@[i as int]);
        }
        if keep_commit(&f, &commits[i]) {
            kept.push(commits[i].duplicate());
        }
        i = i + 1;
    }
    assert(commits@.take(commits@.len() as int) == commits@);
    let mut kept_p: Vec<ProposalEntry> = Vec::new();
    let mut k: usize = 0;
    while k < proposals.len()
        invariant
            k <= proposals@.len(),
            f.same(g),
            forall|p: ProposalEntry| keeps_proposal(f, p) == keeps_proposal(g, p),
            kept_p@ == proposals@.take(k as int).filter(|p: ProposalEntry| keeps_proposal(g, p)),
        decreases proposals@.len() - k,
    {
        proof {
            reveal_with_fuel(Seq::<ProposalEntry>::filter, 1);
            assert(proposals@.take(k + 1).drop_last() == proposals@.take(k as int));
            assert(proposals@.take(k + 1).last() == proposals@[k as int]);
        }
        if after_since_exec(&f.since, &proposals[k].date) && before_until_exec(
            &f.until,
            &proposals[k].date,
        ) {
            kept_p.push(proposals[k].duplicate());
        }
        k = k + 1;
    }
    assert(proposals@.take(proposals@.len() as int) == proposals@);
    (kept, kept_p)
}

} // verus!
