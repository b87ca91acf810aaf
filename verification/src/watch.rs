//! The per-process memory of the channel watcher: every envelope path is
//! handed on for consumption the first time it is seen, and never again.

use vstd::prelude::*;
use vstd::relations::sorted_by;
use crate::listing::{DirEntryInfo, EnvelopePath, envelope_entries, lemma_path_le_total_ordering, path_order, path_views, copy_path, sorted_envelope_paths};

verus! {

/// The paths among `ps` that are handed on, in order, when `seen` have been
/// seen before: the first occurrence of each path not seen yet.
pub open spec fn fresh_paths(seen: Set<(bool, Seq<u8>)>, ps: Seq<(bool, Seq<u8>)>) -> Seq<(bool, Seq<u8>)>
    decreases ps.len(),
{
    if ps.len() == 0 {
        Seq::empty()
    } else if seen.contains(ps[0]) {
        fresh_paths(seen, ps.drop_first())
    } else {
        seq![ps[0]] + fresh_paths(seen.insert(ps[0]), ps.drop_first())
    }
}

proof fn lemma_push_to_set(s: Seq<(bool, Seq<u8>)>, x: (bool, Seq<u8>))
    ensures
        s.push(x).to_set() == s.to_set().insert(x),
{
    assert forall|a: (bool, Seq<u8>)| #[trigger] s.push(x).to_set().contains(a) <==> s.to_set().insert(x).contains(a) by {
        if s.push(x).contains(a) {
            let k = choose|k: int| 0 <= k < s.push(x).len() && s.push(x)[k] == a;
            if k < s.len() {
                assert(s[k] == a);
            }
        }
        if s.contains(a) {
            let k = choose|k: int| 0 <= k < s.len() && s[k] == a;
            assert(s.push(x)[k] == a);
        }
        if a == x {
            assert(s.push(x)[s.len() as int] == a);
        }
    }
    assert(s.push(x).to_set() =~= s.to_set().insert(x));
}

/// Whether two byte vectors are equal.
pub fn bytes_equal(a: &Vec<u8>, b: &Vec<u8>) -> (r: bool)
    ensures
        r == (a@ == b@),
{
    if a.len() != b.len() {
        return false;
    }
    let mut i: usize = 0;
    while i < a.len()
        invariant
            a@.len() == b@.len(),
            i <= a@.len(),
            a@.take(i as int) == b@.take(i as int),
        decreases a@.len() - i,
    {
        if a[i] != b[i] {
            return false;
        }
        proof {
            assert(a@.take(i + 1) =~= a@.take(i as int).push(a@[i as int]));
            assert(b@.take(i + 1) =~= b@.take(i as int).push(b@[i as int]));
        }
        i = i + 1;
    }
    assert(a@ =~= a@.take(i as int));
    assert(b@ =~= b@.take(i as int));
    true
}

/// The envelope paths a watcher has seen.
pub struct SeenEnvelopes {
    paths: Vec<EnvelopePath>,
}

impl SeenEnvelopes {
    /// The set of paths seen so far.
    pub closed spec fn seen(&self) -> Set<(bool, Seq<u8>)> {
        path_views(self.paths@).to_set()
    }

    /// Nothing seen yet.
    pub fn new() -> (s: Self)
        ensures
            s.seen() == Set::<(bool, Seq<u8>)>::empty(),
    {
        let s = SeenEnvelopes { paths: Vec::new() };
        assert(path_views(s.paths@).to_set() =~= Set::<(bool, Seq<u8>)>::empty());
        s
    }

    /// Whether `p` has been seen.
    pub fn contains(&self, p: &EnvelopePath) -> (r: bool)
        ensures
            r == self.seen().contains(p@),
    {
        let ghost v = path_views(self.paths@);
        let mut i: usize = 0;
        while i < self.paths.len()
            invariant
                v == path_views(self.paths@),
                i <= v.len(),
                forall|j: int| 0 <= j < i ==> v[j] != p@,
            decreases v.len() - i,
        {
            if self.paths[i].in_inbox == p.in_inbox && bytes_equal(&self.paths[i].name, &p.name) {
                proof {
                    assert(v[i as int] == p@);
                    assert(v.contains(p@));
                }
                return true;
            }
            i = i + 1;
        }
        false
    }

    /// Records `p` as seen; returns whether it was not seen before
    /// (`HashSet::insert`).
    pub fn insert(&mut self, p: &EnvelopePath) -> (fresh: bool)
        ensures
            fresh == !old(self).seen().contains(p@),
            final(self).seen() == old(self).seen().insert(p@),
    {
        if self.contains(p) {
            proof {
                assert(self.seen().insert(p@) =~= self.seen());
            }
            return false;
        }
        let ghost before = path_views(self.paths@);
        self.paths.push(copy_path(p));
        proof {
            assert(path_views(self.paths@) =~= before.push(p@));
            lemma_push_to_set(before, p@);
        }
        true
    }

    /// The paths of one scan that are handed on for consumption, in scan
    /// order; all of them count as seen afterwards.
    pub fn select_unseen(&mut self, paths: &Vec<EnvelopePath>) -> (fresh: Vec<EnvelopePath>)
        ensures
            path_views(fresh@) == fresh_paths(old(self).seen(), path_views(paths@)),
            final(self).seen() == old(self).seen().union(path_views(paths@).to_set()),
    {
        let ghost ps = path_views(paths@);
        let ghost start = self.seen();
        let mut out: Vec<EnvelopePath> = Vec::new();
        let mut i: usize = 0;
        assert(ps.skip(0) =~= ps);
        assert(path_views(out@) + fresh_paths(start, ps) =~= fresh_paths(start, ps));
        assert(ps.take(0).to_set() =~= Set::<(bool, Seq<u8>)>::empty());
        assert(start.union(Set::empty()) =~= start);
        while i < paths.len()
            invariant
                ps == path_views(paths@),
                i <= ps.len(),
                fresh_paths(start, ps) == path_views(out@) + fresh_paths(self.seen(), ps.skip(i as int)),
                self.seen() == start.union(ps.take(i as int).to_set()),
            decreases ps.len() - i,
        {
            let ghost seen_before = self.seen();
            let ghost out_before = path_views(out@);
            let fresh = self.insert(&paths[i]);
            proof {
                assert(ps.skip(i as int).drop_first() =~= ps.skip(i + 1));
                assert(ps.skip(i as int)[0] == ps[i as int]);
                assert(ps.take(i + 1) =~= ps.take(i as int).push(ps[i as int]));
                lemma_push_to_set(ps.take(i as int), ps[i as int]);
                assert(self.seen() =~= start.union(ps.take(i + 1).to_set()));
            }
            if fresh {
                out.push(copy_path(&paths[i]));
                proof {
                    assert(path_views(out@) =~= out_before.push(ps[i as int]));
                    assert(out_before + (seq![ps[i as int]] + fresh_paths(self.seen(), ps.skip(i + 1)))
                        =~= path_views(out@) + fresh_paths(self.seen(), ps.skip(i + 1)));
                }
            } else {
                proof {
                    assert(self.seen() =~= seen_before);
                }
            }
            i = i + 1;
        }
        proof {
            assert(ps.skip(i as int) =~= Seq::<(bool, Seq<u8>)>::empty());
            assert(ps.take(i as int) =~= ps);
            assert(path_views(out@) + Seq::<(bool, Seq<u8>)>::empty() =~= path_views(out@));
        }
        out
    }
}

/// Each path is handed on at most once: what one scan hands on holds no path
/// twice and no path seen before.
pub proof fn lemma_fresh_paths_at_most_once(seen: Set<(bool, Seq<u8>)>, ps: Seq<(bool, Seq<u8>)>)
    ensures
        fresh_paths(seen, ps).no_duplicates(),
        forall|p: (bool, Seq<u8>)| #[trigger] fresh_paths(seen, ps).contains(p) ==> !seen.contains(p) && ps.contains(p),
    decreases ps.len(),
{
    if ps.len() > 0 {
        if seen.contains(ps[0]) {
            lemma_fresh_paths_at_most_once(seen, ps.drop_first());
            assert forall|p: (bool, Seq<u8>)| #[trigger] fresh_paths(seen, ps).contains(p) implies !seen.contains(p) && ps.contains(p) by {
                let k = choose|k: int| 0 <= k < ps.drop_first().len() && ps.drop_first()[k] == p;
                assert(ps[k + 1] == p);
            }
        } else {
            let rest = fresh_paths(seen.insert(ps[0]), ps.drop_first());
            lemma_fresh_paths_at_most_once(seen.insert(ps[0]), ps.drop_first());
            let all = seq![ps[0]] + rest;
            assert forall|i: int, j: int| 0 <= i < all.len() && 0 <= j < all.len() && i != j implies all[i] != all[j] by {
                if i == 0 {
                    assert(rest.contains(all[j]));
                } else if j == 0 {
                    assert(rest.contains(all[i]));
                } else {
                    assert(all[i] == rest[i - 1]);
                    assert(all[j] == rest[j - 1]);
                }
            }
            assert forall|p: (bool, Seq<u8>)| #[trigger] all.contains(p) implies !seen.contains(p) && ps.contains(p) by {
                let k = choose|k: int| 0 <= k < all.len() && all[k] == p;
                if k == 0 {
                    assert(ps[0] == p);
                } else {
                    assert(rest[k - 1] == p);
                    assert(rest.contains(p));
                    let m = choose|m: int| 0 <= m < ps.drop_first().len() && ps.drop_first()[m] == p;
                    assert(ps[m + 1] == p);
                }
            }
        }
    }
}

/// Nothing is lost: every path of a scan that was not seen before is handed on.
pub proof fn lemma_fresh_paths_complete(seen: Set<(bool, Seq<u8>)>, ps: Seq<(bool, Seq<u8>)>, p: (bool, Seq<u8>))
    requires
        ps.contains(p),
        !seen.contains(p),
    ensures
        fresh_paths(seen, ps).contains(p),
    decreases ps.len(),
{
    if ps[0] == p {
        assert((seq![ps[0]] + fresh_paths(seen.insert(ps[0]), ps.drop_first()))[0] == p);
    } else {
        let k = choose|k: int| 0 <= k < ps.len() && ps[k] == p;
        assert(ps.drop_first()[k - 1] == p);
        if seen.contains(ps[0]) {
            lemma_fresh_paths_complete(seen, ps.drop_first(), p);
        } else {
            lemma_fresh_paths_complete(seen.insert(ps[0]), ps.drop_first(), p);
            let rest = fresh_paths(seen.insert(ps[0]), ps.drop_first());
            let j = choose|j: int| 0 <= j < rest.len() && rest[j] == p;
            assert((seq![ps[0]] + rest)[j + 1] == p);
        }
    }
}

/// Handed-on paths keep the order of the scan: when a scan lists the paths
/// in path order, they are consumed in path order.
pub proof fn lemma_fresh_paths_keep_order(seen: Set<(bool, Seq<u8>)>, ps: Seq<(bool, Seq<u8>)>)
    requires
        sorted_by(ps, path_order()),
    ensures
        sorted_by(fresh_paths(seen, ps), path_order()),
    decreases ps.len(),
{
    let leq = path_order();
    if ps.len() > 0 {
        let rest = ps.drop_first();
        assert forall|i: int, j: int| 0 <= i < j < rest.len() implies #[trigger] leq(rest[i], rest[j]) by {
            assert(leq(ps[i + 1], ps[j + 1]));
        }
        if seen.contains(ps[0]) {
            lemma_fresh_paths_keep_order(seen, rest);
        } else {
            let seen2 = seen.insert(ps[0]);
            lemma_fresh_paths_keep_order(seen2, rest);
            lemma_fresh_paths_at_most_once(seen2, rest);
            let fr = fresh_paths(seen2, rest);
            let all = seq![ps[0]] + fr;
            assert forall|i: int, j: int| 0 <= i < j < all.len() implies #[trigger] leq(all[i], all[j]) by {
                if i == 0 {
                    assert(all[j] == fr[j - 1]);
                    assert(fr.contains(fr[j - 1]));
                    let k = choose|k: int| 0 <= k < rest.len() && rest[k] == fr[j - 1];
                    assert(leq(ps[0], ps[k + 1]));
                } else {
                    assert(all[i] == fr[i - 1]);
                    assert(all[j] == fr[j - 1]);
                }
            }
        }
    }
}

/// Envelopes are consumed in path order: what one scan of the channel and
/// inbox listings hands on is sorted as paths.
pub proof fn lemma_consumed_in_path_order(
    seen: Set<(bool, Seq<u8>)>,
    channel: Seq<DirEntryInfo>,
    inbox: Seq<DirEntryInfo>,
)
    ensures
        sorted_by(fresh_paths(seen, sorted_envelope_paths(channel, inbox)), path_order()),
{
    lemma_path_le_total_ordering();
    (envelope_entries(channel, false) + envelope_entries(inbox, true)).lemma_sort_by_ensures(path_order());
    lemma_fresh_paths_keep_order(seen, sorted_envelope_paths(channel, inbox));
}

} // verus!
