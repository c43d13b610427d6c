//! Log patterns: what the logs of a call frame have to look like for a
//! decoder to apply.
//!
//! A pattern lists the events that the decoder reads, in the order in which
//! they have to occur, and the events that may occur anywhere among them
//! without being read. The logs of a frame are matched in one pass from the
//! first to the last: a log of the event that the pattern expects next is
//! captured, a log of an event that the pattern ignores is passed over, and
//! any other log fails the match, as does an expected event that is still
//! missing at the end.

use vstd::prelude::*;
use crate::primitives::B256;
use crate::actions::{Log, LogView, log_signature, logs_view};

verus! {

/// One entry of a log pattern.
#[derive(Clone, Copy, Debug, PartialEq, Eq, Structural)]
pub enum LogMatcher {
    /// The event must occur exactly once, in the order of the pattern, and
    /// is read.
    Exact(B256),
    /// The event is passed over where it occurs.
    Ignore(B256),
    /// The event may be missing, and is passed over where it occurs.
    Possible(B256),
}

/// The events that a pattern reads, in order.
pub open spec fn exact_sigs(pattern: Seq<LogMatcher>) -> Seq<B256>
    decreases pattern.len(),
{
    if pattern.len() == 0 {
        Seq::empty()
    } else {
        match pattern.last() {
            LogMatcher::Exact(sig) => exact_sigs(pattern.drop_last()).push(sig),
            _ => exact_sigs(pattern.drop_last()),
        }
    }
}

/// Whether entry `i` of a pattern says that the event is passed over.
pub open spec fn ignores_at(pattern: Seq<LogMatcher>, sig: B256, i: int) -> bool {
    0 <= i < pattern.len() && (pattern[i] == LogMatcher::Ignore(sig) || pattern[i]
        == LogMatcher::Possible(sig))
}

/// The events that a pattern passes over.
pub open spec fn ignored(pattern: Seq<LogMatcher>) -> Set<B256> {
    Set::new(|sig: B256| exists|i: int| ignores_at(pattern, sig, i))
}

/// The places of the logs that a pass over the logs from place `i` on
/// captures, where `c` of the expected events have been captured already;
/// nothing where the pass fails.
pub open spec fn scan(exacts: Seq<B256>, passed: Set<B256>, logs: Seq<LogView>, i: int, c: int) -> Option<
    Seq<int>,
>
    decreases logs.len() - i,
{
    if i >= logs.len() {
        if c == exacts.len() {
            Some(Seq::empty())
        } else {
            None
        }
    } else {
        match log_signature(logs[i]) {
            None => None,
            Some(sig) => if 0 <= c < exacts.len() && exacts[c] == sig {
                match scan(exacts, passed, logs, i + 1, c + 1) {
                    Some(rest) => Some(seq![i] + rest),
                    None => None,
                }
            } else if passed.contains(sig) {
                scan(exacts, passed, logs, i + 1, c)
            } else {
                None
            },
        }
    }
}

/// The places of the logs that a pattern captures, one for each event that
/// the pattern reads and in that order; nothing where the logs do not
/// match the pattern.
pub open spec fn matched(pattern: Seq<LogMatcher>, logs: Seq<LogView>) -> Option<Seq<int>> {
    scan(exact_sigs(pattern), ignored(pattern), logs, 0, 0)
}

/// A pass that succeeds captures one log for each expected event that was
/// still missing, at places of the logs, in ascending order, and each
/// captured log is of the event it was captured for.
pub proof fn lemma_scan_captures(exacts: Seq<B256>, passed: Set<B256>, logs: Seq<LogView>, i: int, c: int)
    requires
        0 <= i,
        0 <= c <= exacts.len(),
        scan(exacts, passed, logs, i, c) is Some,
    ensures
        scan(exacts, passed, logs, i, c)->0.len() == exacts.len() - c,
        forall|k: int|
            0 <= k < exacts.len() - c ==> {
                let at = #[trigger] scan(exacts, passed, logs, i, c)->0[k];
                &&& i <= at < logs.len()
                &&& log_signature(logs[at]) == Some(exacts[c + k])
            },
    decreases logs.len() - i,
{
    if i < logs.len() {
        let sig = log_signature(logs[i])->0;
        if c < exacts.len() && exacts[c] == sig {
            lemma_scan_captures(exacts, passed, logs, i + 1, c + 1);
            let rest = scan(exacts, passed, logs, i + 1, c + 1)->0;
            let all = scan(exacts, passed, logs, i, c)->0;
            assert(all == seq![i] + rest);
            assert forall|k: int| 0 <= k < exacts.len() - c implies {
                let at = #[trigger] all[k];
                &&& i <= at < logs.len()
                &&& log_signature(logs[at]) == Some(exacts[c + k])
            } by {
                if k > 0 {
                    assert(all[k] == rest[k - 1]);
                }
            }
        } else {
            lemma_scan_captures(exacts, passed, logs, i + 1, c);
        }
    }
}

/// Whether an event is passed over by a pattern.
fn is_ignored(pattern: &Vec<LogMatcher>, sig: B256) -> (r: bool)
    ensures
        r == ignored(pattern@).contains(sig),
{
    let mut i: usize = 0;
    while i < pattern.len()
        invariant
            i <= pattern@.len(),
            forall|k: int| 0 <= k < i ==> !ignores_at(pattern@, sig, k),
        decreases pattern@.len() - i,
    {
        let hit = match pattern[i] {
            LogMatcher::Ignore(s) => s == sig,
            LogMatcher::Possible(s) => s == sig,
            LogMatcher::Exact(_) => false,
        };
        if hit {
            assert(ignores_at(pattern@, sig, i as int));
            return true;
        }
        i = i + 1;
    }
    false
}

/// The events that a pattern reads, in order.
fn exacts_of(pattern: &Vec<LogMatcher>) -> (r: Vec<B256>)
    ensures
        r@ == exact_sigs(pattern@),
{
    let mut r: Vec<B256> = Vec::new();
    let mut i: usize = 0;
    assert(pattern@.take(0) =~= Seq::<LogMatcher>::empty());
    while i < pattern.len()
        invariant
            i <= pattern@.len(),
            r@ == exact_sigs(pattern@.take(i as int)),
        decreases pattern@.len() - i,
    {
        proof {
            assert(pattern@.take(i + 1).drop_last() =~= pattern@.take(i as int));
            assert(pattern@.take(i + 1).last() == pattern@[i as int]);
        }
        match pattern[i] {
            LogMatcher::Exact(sig) => {
                r.push(sig);
            },
            _ => {},
        }
        i = i + 1;
    }
    assert(pattern@.take(pattern@.len() as int) =~= pattern@);
    r
}

/// What a pass gives that has captured `done` and goes on to capture
/// `rest`.
pub open spec fn joined(done: Seq<int>, rest: Option<Seq<int>>) -> Option<Seq<int>> {
    match rest {
        Some(more) => Some(done + more),
        None => None,
    }
}

/// The places of a vector as numbers.
pub open spec fn places(found: Seq<usize>) -> Seq<int> {
    found.map_values(|p: usize| p as int)
}

/// The places of the logs that a pattern captures, one for each event that
/// the pattern reads and in that order; nothing where the logs do not
/// match the pattern.
pub fn match_logs(pattern: &Vec<LogMatcher>, logs: &Vec<Log>) -> (r: Option<Vec<usize>>)
    ensures
        match r {
            Some(found) => matched(pattern@, logs_view(logs@)) == Some(places(found@)),
            None => matched(pattern@, logs_view(logs@)) is None,
        },
{
    let exacts = exacts_of(pattern);
    let ghost passed = ignored(pattern@);
    let ghost views = logs_view(logs@);
    let mut found: Vec<usize> = Vec::new();
    let mut c: usize = 0;
    let mut i: usize = 0;
    assert(places(found@) + Seq::<int>::empty() =~= Seq::<int>::empty());
    assert(Seq::<int>::empty() + Seq::<int>::empty() =~= Seq::<int>::empty());
    while i < logs.len()
        invariant
            i <= logs@.len(),
            c <= exacts@.len(),
            c == found@.len(),
            exacts@ == exact_sigs(pattern@),
            passed == ignored(pattern@),
            views == logs_view(logs@),
            matched(pattern@, views) == joined(places(found@), scan(exacts@, passed, views, i as int, c as int)),
        decreases logs@.len() - i,
    {
        proof {
            assert(views[i as int] == logs@[i as int]@);
        }
        let sig = match logs[i].signature() {
            Some(s) => s,
            None => {
                return None;
            },
        };
        if c < exacts.len() && exacts[c] == sig {
            proof {
                let before = places(found@);
                let rest = scan(exacts@, passed, views, i + 1, c + 1);
                assert(places(found@.push(i)) =~= before.push(i as int));
                if rest is Some {
                    assert(before + (seq![i as int] + rest->0) =~= before.push(i as int) + rest->0);
                }
            }
            found.push(i);
            c = c + 1;
        } else if is_ignored(pattern, sig) {
        } else {
            return None;
        }
        i = i + 1;
    }
    if c == exacts.len() {
        assert(places(found@) + Seq::<int>::empty() =~= places(found@));
        Some(found)
    } else {
        None
    }
}

/// The events that two patterns read, one pattern after the other.
pub proof fn lemma_exact_sigs_concat(a: Seq<LogMatcher>, b: Seq<LogMatcher>)
    ensures
        exact_sigs(a + b) == exact_sigs(a) + exact_sigs(b),
    decreases b.len(),
{
    if b.len() == 0 {
        assert(a + b =~= a);
        assert(exact_sigs(a) + exact_sigs(b) =~= exact_sigs(a));
    } else {
        lemma_exact_sigs_concat(a, b.drop_last());
        assert((a + b).drop_last() =~= a + b.drop_last());
        assert((a + b).last() == b.last());
        assert(exact_sigs(a + b) =~= exact_sigs(a) + exact_sigs(b));
    }
}

/// Two patterns that read the same events in the same order and pass over
/// the same events capture the same logs.
pub proof fn lemma_same_reading(p: Seq<LogMatcher>, q: Seq<LogMatcher>, logs: Seq<LogView>)
    requires
        exact_sigs(p) == exact_sigs(q),
        ignored(p) == ignored(q),
    ensures
        matched(p, logs) == matched(q, logs),
{
}

/// A pattern with the entries at `i` and `i + 1` exchanged.
pub open spec fn exchanged(p: Seq<LogMatcher>, i: int) -> Seq<LogMatcher> {
    p.update(i, p[i + 1]).update(i + 1, p[i])
}

/// Pattern matching, reordering: exchanging two neighbouring entries of a
/// pattern, of which at least one is not read, changes nothing in what the
/// pattern captures. Any reordering of the entries that are not read is a
/// chain of such exchanges.
pub proof fn lemma_reorder_ignores(p: Seq<LogMatcher>, i: int, logs: Seq<LogView>)
    requires
        0 <= i,
        i + 1 < p.len(),
        !(p[i] is Exact) || !(p[i + 1] is Exact),
    ensures
        exact_sigs(exchanged(p, i)) == exact_sigs(p),
        ignored(exchanged(p, i)) == ignored(p),
        matched(exchanged(p, i), logs) == matched(p, logs),
{
    let q = exchanged(p, i);
    let head = p.take(i);
    let tail = p.skip(i + 2);
    let mid = seq![p[i], p[i + 1]];
    let dim = seq![p[i + 1], p[i]];
    assert(p =~= head + mid + tail);
    assert(q =~= head + dim + tail);
    lemma_exact_sigs_concat(head + mid, tail);
    lemma_exact_sigs_concat(head, mid);
    lemma_exact_sigs_concat(head + dim, tail);
    lemma_exact_sigs_concat(head, dim);
    assert(exact_sigs(mid) =~= exact_sigs(dim)) by {
        assert(mid.drop_last() =~= seq![p[i]]);
        assert(dim.drop_last() =~= seq![p[i + 1]]);
        assert(seq![p[i]].drop_last() =~= Seq::<LogMatcher>::empty());
        assert(seq![p[i + 1]].drop_last() =~= Seq::<LogMatcher>::empty());
        reveal_with_fuel(exact_sigs, 3);
    }
    assert forall|sig: B256| ignored(q).contains(sig) == ignored(p).contains(sig) by {
        if ignored(q).contains(sig) {
            let k = choose|k: int| ignores_at(q, sig, k);
            let back = if k == i {
                i + 1
            } else if k == i + 1 {
                i
            } else {
                k
            };
            assert(ignores_at(p, sig, back));
        }
        if ignored(p).contains(sig) {
            let k = choose|k: int| ignores_at(p, sig, k);
            let there = if k == i {
                i + 1
            } else if k == i + 1 {
                i
            } else {
                k
            };
            assert(ignores_at(q, sig, there));
        }
    }
    assert(ignored(q) =~= ignored(p));
}

/// Two passes over the same logs for the same expected events go the same
/// way if they pass over the same events among those that the logs hold.
pub proof fn lemma_scan_agrees(
    exacts: Seq<B256>,
    a: Set<B256>,
    b: Set<B256>,
    logs: Seq<LogView>,
    i: int,
    c: int,
)
    requires
        0 <= i,
        forall|j: int|
            i <= j < logs.len() && log_signature(#[trigger] logs[j]) is Some ==> a.contains(
                log_signature(logs[j])->0,
            ) == b.contains(log_signature(logs[j])->0),
    ensures
        scan(exacts, a, logs, i, c) == scan(exacts, b, logs, i, c),
    decreases logs.len() - i,
{
    if i < logs.len() {
        assert(log_signature(logs[i]) is Some ==> a.contains(log_signature(logs[i])->0)
            == b.contains(log_signature(logs[i])->0));
        lemma_scan_agrees(exacts, a, b, logs, i + 1, c);
        lemma_scan_agrees(exacts, a, b, logs, i + 1, c + 1);
    }
}

/// Pattern matching, optional events: taking an optional event out of a
/// pattern changes nothing in what the pattern captures from logs in which
/// the event does not occur.
pub proof fn lemma_absent_possible(p: Seq<LogMatcher>, i: int, sig: B256, logs: Seq<LogView>)
    requires
        0 <= i < p.len(),
        p[i] == LogMatcher::Possible(sig),
        forall|j: int| 0 <= j < logs.len() ==> log_signature(#[trigger] logs[j]) != Some(sig),
    ensures
        matched(p.remove(i), logs) == matched(p, logs),
{
    let q = p.remove(i);
    let head = p.take(i);
    let tail = p.skip(i + 1);
    let mid = seq![p[i]];
    assert(p =~= head + mid + tail);
    assert(q =~= head + tail);
    lemma_exact_sigs_concat(head + mid, tail);
    lemma_exact_sigs_concat(head, mid);
    lemma_exact_sigs_concat(head, tail);
    assert(exact_sigs(mid) =~= Seq::<B256>::empty()) by {
        assert(mid.drop_last() =~= Seq::<LogMatcher>::empty());
        reveal_with_fuel(exact_sigs, 2);
    }
    assert(exact_sigs(q) =~= exact_sigs(p));
    assert forall|j: int|
        0 <= j < logs.len() && log_signature(#[trigger] logs[j]) is Some implies ignored(q).contains(
        log_signature(logs[j])->0,
    ) == ignored(p).contains(log_signature(logs[j])->0) by {
        let x = log_signature(logs[j])->0;
        if ignored(q).contains(x) {
            let k = choose|k: int| ignores_at(q, x, k);
            let back = if k < i {
                k
            } else {
                k + 1
            };
            assert(ignores_at(p, x, back));
        }
        if ignored(p).contains(x) {
            let k = choose|k: int| ignores_at(p, x, k);
            assert(k != i);
            let there = if k < i {
                k
            } else {
                k - 1
            };
            assert(ignores_at(q, x, there));
        }
    }
    lemma_scan_agrees(exact_sigs(p), ignored(q), ignored(p), logs, 0, 0);
}

/// How often an event occurs among the events from place `c` on.
pub open spec fn expected_from(exacts: Seq<B256>, c: int, sig: B256) -> nat
    decreases exacts.len() - c,
{
    if c >= exacts.len() || c < 0 {
        0
    } else if exacts[c] == sig {
        1 + expected_from(exacts, c + 1, sig)
    } else {
        expected_from(exacts, c + 1, sig)
    }
}

/// How often an event occurs among the logs from place `i` on.
pub open spec fn logged_from(logs: Seq<LogView>, i: int, sig: B256) -> nat
    decreases logs.len() - i,
{
    if i >= logs.len() || i < 0 {
        0
    } else if log_signature(logs[i]) == Some(sig) {
        1 + logged_from(logs, i + 1, sig)
    } else {
        logged_from(logs, i + 1, sig)
    }
}

/// Where a pass succeeds, an event that is not passed over occurs among
/// the logs as often as it is expected.
pub proof fn lemma_scan_counts(
    exacts: Seq<B256>,
    passed: Set<B256>,
    logs: Seq<LogView>,
    i: int,
    c: int,
    sig: B256,
)
    requires
        0 <= i,
        0 <= c,
        scan(exacts, passed, logs, i, c) is Some,
        !passed.contains(sig),
    ensures
        logged_from(logs, i, sig) == expected_from(exacts, c, sig),
    decreases logs.len() - i,
{
    if i < logs.len() {
        let here = log_signature(logs[i])->0;
        if c < exacts.len() && exacts[c] == here {
            lemma_scan_counts(exacts, passed, logs, i + 1, c + 1, sig);
        } else {
            lemma_scan_counts(exacts, passed, logs, i + 1, c, sig);
        }
    } else {
        lemma_expected_none(exacts, c, sig);
    }
}

/// Nothing is expected from the end on.
proof fn lemma_expected_none(exacts: Seq<B256>, c: int, sig: B256)
    requires
        c >= exacts.len(),
    ensures
        expected_from(exacts, c, sig) == 0,
{
}

/// How often an event is expected in two runs of events, one after the
/// other.
proof fn lemma_expected_concat(a: Seq<B256>, b: Seq<B256>, c: int, sig: B256)
    requires
        0 <= c <= a.len(),
    ensures
        expected_from(a + b, c, sig) == expected_from(a, c, sig) + expected_from(b, 0, sig),
    decreases a.len() - c,
{
    if c < a.len() {
        lemma_expected_concat(a, b, c + 1, sig);
        assert((a + b)[c] == a[c]);
    } else {
        lemma_expected_shift(a, b, 0, sig);
    }
}

/// Counting in the second of two runs does not depend on the first.
proof fn lemma_expected_shift(a: Seq<B256>, b: Seq<B256>, k: int, sig: B256)
    requires
        0 <= k <= b.len(),
    ensures
        expected_from(a + b, a.len() + k, sig) == expected_from(b, k, sig),
    decreases b.len() - k,
{
    if k < b.len() {
        lemma_expected_shift(a, b, k + 1, sig);
        assert((a + b)[a.len() + k] == b[k]);
    }
}

/// Pattern matching, missing events: taking an event that is read out of a
/// pattern that matched makes the pattern fail on the same logs, unless the
/// pattern passes that event over as well.
pub proof fn lemma_missing_exact(p: Seq<LogMatcher>, i: int, sig: B256, logs: Seq<LogView>)
    requires
        0 <= i < p.len(),
        p[i] == LogMatcher::Exact(sig),
        !ignored(p).contains(sig),
        matched(p, logs) is Some,
    ensures
        matched(p.remove(i), logs) is None,
{
    let q = p.remove(i);
    let head = p.take(i);
    let tail = p.skip(i + 1);
    let mid = seq![p[i]];
    assert(p =~= head + mid + tail);
    assert(q =~= head + tail);
    lemma_exact_sigs_concat(head + mid, tail);
    lemma_exact_sigs_concat(head, mid);
    lemma_exact_sigs_concat(head, tail);
    assert(exact_sigs(mid) =~= seq![sig]) by {
        assert(mid.drop_last() =~= Seq::<LogMatcher>::empty());
        reveal_with_fuel(exact_sigs, 2);
    }
    let a = exact_sigs(head);
    let b = exact_sigs(tail);
    assert(exact_sigs(p) == a + seq![sig] + b);
    assert(exact_sigs(q) == a + b);
    lemma_expected_concat(a + seq![sig], b, 0, sig);
    lemma_expected_concat(a, seq![sig], 0, sig);
    lemma_expected_concat(a, b, 0, sig);
    assert(expected_from(seq![sig], 0, sig) == 1) by {
        reveal_with_fuel(expected_from, 3);
    }
    assert(expected_from(exact_sigs(p), 0, sig) == expected_from(exact_sigs(q), 0, sig) + 1);
    lemma_scan_counts(exact_sigs(p), ignored(p), logs, 0, 0, sig);
    assert(!ignored(q).contains(sig)) by {
        if ignored(q).contains(sig) {
            let k = choose|k: int| ignores_at(q, sig, k);
            let back = if k < i {
                k
            } else {
                k + 1
            };
            assert(ignores_at(p, sig, back));
        }
    }
    if matched(q, logs) is Some {
        lemma_scan_counts(exact_sigs(q), ignored(q), logs, 0, 0, sig);
    }
}

} // verus!
