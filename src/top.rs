//! The bounded top-N tracker: the largest files seen so far, largest first.
//!
//! Entries are ranked by size, and files of equal size by path: of two
//! files of the same size, the one whose path is later in character order
//! ranks first. So when one entry has to leave, it is the smallest
//! (size, path) pair, whatever order the files were seen in.
use vstd::multiset::Multiset;
use vstd::prelude::*;

verus! {

broadcast use vstd::seq_lib::group_to_multiset_ensures;

/// One file of the ranking: its path and its size in bytes.
pub struct FileEntry {
    pub path: String,
    pub size: u64,
}

/// What a `FileEntry` stands for: its path as characters, and its size.
pub type EntryView = (Seq<char>, u64);

impl View for FileEntry {
    type V = EntryView;

    open spec fn view(&self) -> EntryView {
        (self.path@, self.size)
    }
}

impl FileEntry {
    pub fn new(path: String, size: u64) -> (r: FileEntry)
        ensures
            r.path@ == path@,
            r.size == size,
    {
        FileEntry { path, size }
    }

    /// A copy of this entry.
    pub fn duplicate(&self) -> (r: FileEntry)
        ensures
            r@ == self@,
    {
        FileEntry { path: self.path.clone(), size: self.size }
    }
}

/// The views of a sequence of entries.
pub open spec fn entries_view(v: Seq<FileEntry>) -> Seq<EntryView> {
    v.map_values(|e: FileEntry| e@)
}

/// `a` comes before `b` in character order: at the first position where they
/// differ, `a` has the smaller character, or `a` is a proper prefix of `b`.
pub open spec fn path_lt(a: Seq<char>, b: Seq<char>) -> bool
    decreases a.len(),
{
    if a.len() == 0 {
        b.len() > 0
    } else if b.len() == 0 {
        false
    } else if a[0] != b[0] {
        (a[0] as int) < (b[0] as int)
    } else {
        path_lt(a.drop_first(), b.drop_first())
    }
}

/// `a` ranks strictly above `b`: it is larger, or as large with a path that
/// is later in character order.
pub open spec fn outranks(a: EntryView, b: EntryView) -> bool {
    a.1 > b.1 || (a.1 == b.1 && path_lt(b.0, a.0))
}

/// No entry ranks above one before it.
pub open spec fn sorted_desc(s: Seq<EntryView>) -> bool {
    forall|i: int, j: int| 0 <= i < j < s.len() ==> !outranks(s[j], s[i])
}

/// No path comes before itself, and of two paths at most one comes first.
proof fn lemma_path_lt_asym(a: Seq<char>, b: Seq<char>)
    ensures
        !(path_lt(a, b) && path_lt(b, a)),
    decreases a.len(),
{
    if a.len() > 0 && b.len() > 0 && a[0] == b[0] {
        lemma_path_lt_asym(a.drop_first(), b.drop_first());
    }
}

/// Of two different paths, one comes first.
proof fn lemma_path_lt_total(a: Seq<char>, b: Seq<char>)
    ensures
        a != b ==> path_lt(a, b) || path_lt(b, a),
    decreases a.len(),
{
    if a.len() > 0 && b.len() > 0 {
        if a[0] == b[0] {
            lemma_path_lt_total(a.drop_first(), b.drop_first());
            if a.drop_first() == b.drop_first() {
                assert(a =~= seq![a[0]] + a.drop_first());
                assert(b =~= seq![b[0]] + b.drop_first());
            }
        } else {
            assert(a[0] as int != b[0] as int);
        }
    } else if a.len() == 0 && b.len() == 0 {
        assert(a =~= b);
    }
}

/// Character order is transitive.
proof fn lemma_path_lt_trans(a: Seq<char>, b: Seq<char>, c: Seq<char>)
    requires
        path_lt(a, b),
        path_lt(b, c),
    ensures
        path_lt(a, c),
    decreases a.len(),
{
    if a.len() > 0 && a[0] == b[0] && b[0] == c[0] {
        lemma_path_lt_trans(a.drop_first(), b.drop_first(), c.drop_first());
    }
}

/// The ranking order is a strict order in which any two different entries
/// are comparable.
pub proof fn lemma_outranks_order(a: EntryView, b: EntryView, c: EntryView)
    ensures
        !(outranks(a, b) && outranks(b, a)),
        outranks(a, b) && outranks(b, c) ==> outranks(a, c),
        a != b ==> outranks(a, b) || outranks(b, a),
{
    lemma_path_lt_asym(a.0, b.0);
    lemma_path_lt_total(a.0, b.0);
    if outranks(a, b) && outranks(b, c) && a.1 == b.1 && b.1 == c.1 {
        lemma_path_lt_trans(c.0, b.0, a.0);
    }
}

/// `p` is where `e` goes in `s`: after every entry that it does not rank
/// above, before every entry that it does.
pub open spec fn is_slot(s: Seq<EntryView>, e: EntryView, p: int) -> bool {
    &&& 0 <= p <= s.len()
    &&& forall|i: int| 0 <= i < p ==> !outranks(e, s[i])
    &&& forall|i: int| p <= i < s.len() ==> outranks(e, s[i])
}

/// The place of `e` in the sorted sequence `s`.
pub open spec fn slot(s: Seq<EntryView>, e: EntryView) -> int {
    choose|p: int| is_slot(s, e, p)
}

/// The ranking after `e` is offered to the ranking `s` bounded by `limit`:
/// `e` is placed by rank, and if that makes one entry too many, the last
/// (lowest-ranked) entry leaves.
pub open spec fn offered(s: Seq<EntryView>, e: EntryView, limit: nat) -> Seq<EntryView> {
    let t = s.insert(slot(s, e), e);
    if t.len() > limit {
        t.drop_last()
    } else {
        t
    }
}

/// The ranking, bounded by `limit`, after every entry of `s` was offered in turn
/// to an empty one.
pub open spec fn top_of(s: Seq<EntryView>, limit: nat) -> Seq<EntryView>
    decreases s.len(),
{
    if s.len() == 0 {
        Seq::empty()
    } else {
        offered(top_of(s.drop_last(), limit), s.last(), limit)
    }
}

/// Scanning a sorted sequence from `p`, past entries that `e` does not rank
/// above, finds a place for `e`.
proof fn lemma_slot_from(s: Seq<EntryView>, e: EntryView, p: int)
    requires
        sorted_desc(s),
        0 <= p <= s.len(),
        forall|i: int| 0 <= i < p ==> !outranks(e, s[i]),
    ensures
        exists|q: int| is_slot(s, e, q),
    decreases s.len() - p,
{
    if p < s.len() && !outranks(e, s[p]) {
        lemma_slot_from(s, e, p + 1);
    } else {
        assert forall|i: int| p <= i < s.len() implies outranks(e, s[i]) by {
            lemma_outranks_order(e, s[p], s[i]);
            lemma_outranks_order(s[p], s[i], e);
            lemma_outranks_order(s[i], s[p], e);
        }
        assert(is_slot(s, e, p));
    }
}

/// In a sorted sequence there is one place for each entry.
pub proof fn lemma_slot_exists(s: Seq<EntryView>, e: EntryView)
    requires
        sorted_desc(s),
    ensures
        is_slot(s, e, slot(s, e)),
{
    lemma_slot_from(s, e, 0);
}

/// Offering an entry keeps a ranking sorted and within its bound; when the
/// ranking was full, either the new entry leaves again at once, or it takes
/// its place and the last (lowest-ranked) entry leaves.
pub proof fn lemma_offered(s: Seq<EntryView>, e: EntryView, limit: nat)
    requires
        sorted_desc(s),
        s.len() <= limit,
    ensures
        is_slot(s, e, slot(s, e)),
        sorted_desc(offered(s, e, limit)),
        s.len() < limit ==> offered(s, e, limit) == s.insert(slot(s, e), e),
        s.len() < limit ==> offered(s, e, limit).to_multiset() == s.to_multiset().insert(e),
        s.len() == limit && slot(s, e) == s.len() ==> offered(s, e, limit) == s,
        s.len() == limit && slot(s, e) < s.len() ==> {
            let o = offered(s, e, limit);
            &&& o.len() == s.len()
            &&& o[slot(s, e)] == e
            &&& outranks(e, s.last())
            &&& o.push(s.last()).to_multiset() == s.to_multiset().insert(e)
            &&& forall|i: int| 0 <= i < o.len() ==> !outranks(s.last(), #[trigger] o[i])
            &&& forall|i: int|
                0 <= i < o.len() && i != slot(s, e) ==> exists|j: int|
                    0 <= j < s.len() && s[j] == #[trigger] o[i]
        },
{
    lemma_slot_exists(s, e);
    let p = slot(s, e);
    let t = s.insert(p, e);
    assert forall|i: int, j: int| 0 <= i < j < t.len() implies !outranks(t[j], t[i]) by {
        if i < p && j == p {
        } else if i == p && j > p {
            lemma_outranks_order(e, t[j], e);
        } else if i < p && j > p {
            assert(t[i] == s[i] && t[j] == s[j - 1]);
        } else if i > p {
            assert(t[i] == s[i - 1] && t[j] == s[j - 1]);
        } else {
            assert(t[i] == s[i] && t[j] == s[j]);
        }
    }
    assert(sorted_desc(t));
    assert(t.to_multiset() == s.to_multiset().insert(e));
    if t.len() > limit {
        let o = t.drop_last();
        assert(o == offered(s, e, limit));
        if p == s.len() {
            assert(o =~= s);
        } else {
            assert(o.push(t.last()) =~= t);
            assert(t.last() == s.last());
            assert(o[p] == e);
            assert forall|i: int| 0 <= i < o.len() implies !outranks(s.last(), #[trigger] o[i]) by {
                assert(o[i] == t[i]);
            }
            assert forall|i: int| 0 <= i < o.len() && i != p implies exists|j: int|
                0 <= j < s.len() && s[j] == #[trigger] o[i] by {
                if i < p {
                    assert(s[i] == o[i]);
                } else {
                    assert(s[i - 1] == o[i]);
                }
            }
        }
    }
}

/// Compares two paths in character order.
fn path_less(a: &String, b: &String) -> (r: bool)
    ensures
        r == path_lt(a@, b@),
{
    let la = a.as_str().unicode_len();
    let lb = b.as_str().unicode_len();
    let mut i: usize = 0;
    assert(a@.skip(0) =~= a@ && b@.skip(0) =~= b@);
    while i < la && i < lb
        invariant
            la == a@.len(),
            lb == b@.len(),
            0 <= i <= la,
            i <= lb,
            path_lt(a@, b@) == path_lt(a@.skip(i as int), b@.skip(i as int)),
        decreases la - i,
    {
        let ca = a.as_str().get_char(i);
        let cb = b.as_str().get_char(i);
        assert(a@.skip(i as int)[0] == ca && b@.skip(i as int)[0] == cb);
        if ca != cb {
            return (ca as u32) < (cb as u32);
        }
        assert(a@.skip(i as int).drop_first() =~= a@.skip(i + 1));
        assert(b@.skip(i as int).drop_first() =~= b@.skip(i + 1));
        i = i + 1;
    }
    i == la && i < lb
}

/// Whether `a` ranks strictly above `b`.
fn ranks_above(a: &FileEntry, b: &FileEntry) -> (r: bool)
    ensures
        r == outranks(a@, b@),
{
    a.size > b.size || (a.size == b.size && path_less(&b.path, &a.path))
}

/// Offers `entry` to the ranking `top`, which holds at most `limit` entries:
/// the entry is placed by rank and, if `top` then holds more than `limit`
/// entries, the lowest-ranked one leaves.
pub fn push_top(top: &mut Vec<FileEntry>, entry: FileEntry, limit: usize)
    requires
        sorted_desc(entries_view(old(top)@)),
        old(top)@.len() <= limit,
    ensures
        entries_view(final(top)@) == offered(entries_view(old(top)@), entry@, limit as nat),
        sorted_desc(entries_view(final(top)@)),
        final(top)@.len() <= limit,
{
    let ghost s = entries_view(top@);
    let ghost e = entry@;
    proof {
        lemma_slot_exists(s, e);
        lemma_offered(s, e, limit as nat);
    }
    let mut p: usize = 0;
    while p < top.len() && !ranks_above(&entry, &top[p])
        invariant
            0 <= p <= top@.len(),
            s == entries_view(top@),
            s.len() == top@.len(),
            e == entry@,
            sorted_desc(s),
            forall|i: int| 0 <= i < p ==> !outranks(e, s[i]),
        decreases top@.len() - p,
    {
        assert(s[p as int] == top@[p as int]@);
        p = p + 1;
    }
    proof {
        if p < top.len() {
            assert(s[p as int] == top@[p as int]@);
            assert forall|i: int| p <= i < s.len() implies outranks(e, s[i]) by {
                lemma_outranks_order(e, s[p as int], s[i]);
                lemma_outranks_order(s[i], s[p as int], e);
            }
        }
        assert(is_slot(s, e, p as int));
        let q = slot(s, e);
        if q < p {
            assert(outranks(e, s[q]));
        } else if q > p {
            assert(!outranks(e, s[p as int]));
        }
    }
    top.insert(p, entry);
    if top.len() > limit {
        top.pop();
    }
    assert(entries_view(top@) =~= offered(s, e, limit as nat));
}

/// Evidence that the ranking after offering `s` holds the highest-ranked
/// entries of `s`.
proof fn lemma_top_of_witness(s: Seq<EntryView>, limit: nat) -> (dropped: Seq<EntryView>)
    ensures
        sorted_desc(top_of(s, limit)),
        top_of(s, limit).len() == if s.len() < limit { s.len() as int } else { limit as int },
        top_of(s, limit).to_multiset().add(dropped.to_multiset()) == s.to_multiset(),
        forall|i: int, j: int|
            0 <= i < dropped.len() && 0 <= j < top_of(s, limit).len() ==> !outranks(
                dropped[i],
                top_of(s, limit)[j],
            ),
    decreases s.len(),
{
    broadcast use vstd::multiset::group_multiset_axioms;

    if s.len() == 0 {
        assert(s.to_multiset() =~= Multiset::empty());
        Seq::empty()
    } else {
        let prev = s.drop_last();
        let e = s.last();
        let d0 = lemma_top_of_witness(prev, limit);
        let t0 = top_of(prev, limit);
        let t1 = top_of(s, limit);
        assert(s =~= prev.push(e));
        assert(s.to_multiset() == prev.to_multiset().insert(e));
        lemma_offered(t0, e, limit);
        let p = slot(t0, e);
        if t0.len() < limit {
            assert(d0.len() == 0) by {
                assert(t0.to_multiset().add(d0.to_multiset()).len() == prev.len());
            }
            assert(t1.to_multiset().add(d0.to_multiset()) =~= s.to_multiset());
            d0
        } else if p == t0.len() {
            let d1 = d0.push(e);
            assert(d1.to_multiset() == d0.to_multiset().insert(e));
            assert(t1.to_multiset().add(d1.to_multiset()) =~= s.to_multiset());
            assert forall|i: int, j: int|
                0 <= i < d1.len() && 0 <= j < t1.len() implies !outranks(d1[i], t1[j]) by {
                if i < d0.len() {
                    assert(d1[i] == d0[i]);
                }
            }
            d1
        } else {
            let x = t0.last();
            let d1 = d0.push(x);
            assert(d1.to_multiset() == d0.to_multiset().insert(x));
            assert(t1.push(x).to_multiset() == t1.to_multiset().insert(x));
            assert(t1.push(x).to_multiset() == t0.to_multiset().insert(e));
            assert(t1.to_multiset().add(d1.to_multiset()) =~= t1.to_multiset().insert(x).add(
                d0.to_multiset(),
            ));
            assert(t0.to_multiset().insert(e).add(d0.to_multiset()) =~= t0.to_multiset().add(
                d0.to_multiset(),
            ).insert(e));
            assert(t1.to_multiset().add(d1.to_multiset()) =~= s.to_multiset());
            assert forall|i: int, j: int|
                0 <= i < d1.len() && 0 <= j < t1.len() implies !outranks(d1[i], t1[j]) by {
                if i < d0.len() {
                    assert(d1[i] == d0[i]);
                    assert(!outranks(d0[i], t0[t0.len() - 1]));
                    if j != p {
                        let k = choose|k: int| 0 <= k < t0.len() && t0[k] == t1[j];
                        assert(!outranks(d0[i], t0[k]));
                    } else {
                        lemma_outranks_order(d0[i], e, x);
                    }
                }
            }
            d1
        }
    }
}

/// Whatever files were offered, in whatever order, the ranking is sorted
/// highest first, holds as many entries as the bound allows (all of them if
/// fewer were offered), holds only entries that were offered, and no offered
/// entry that it does not hold ranks above, or is larger than, any entry it
/// holds: it is the `limit` largest, equal sizes decided by path.
pub proof fn lemma_top_of_is_largest(s: Seq<EntryView>, limit: nat)
    ensures
        sorted_desc(top_of(s, limit)),
        top_of(s, limit).len() == if s.len() < limit { s.len() as int } else { limit as int },
        exists|dropped: Seq<EntryView>|
            {
                &&& #[trigger] top_of(s, limit).to_multiset().add(dropped.to_multiset())
                    == s.to_multiset()
                &&& forall|i: int, j: int|
                    0 <= i < dropped.len() && 0 <= j < top_of(s, limit).len() ==> !outranks(
                        dropped[i],
                        top_of(s, limit)[j],
                    ) && dropped[i].1 <= top_of(s, limit)[j].1
            },
{
    let dropped = lemma_top_of_witness(s, limit);
    assert(top_of(s, limit).to_multiset().add(dropped.to_multiset()) == s.to_multiset());
}

/// Two sorted rankings of one equal length, each with what it left out, drawn
/// from the same entries, where nothing left out ranks above anything kept,
/// are the same ranking.
proof fn lemma_rankings_agree(
    t1: Seq<EntryView>,
    d1: Seq<EntryView>,
    t2: Seq<EntryView>,
    d2: Seq<EntryView>,
)
    requires
        sorted_desc(t1),
        sorted_desc(t2),
        t1.len() == t2.len(),
        t1.to_multiset().add(d1.to_multiset()) == t2.to_multiset().add(d2.to_multiset()),
        forall|i: int, j: int| 0 <= i < d1.len() && 0 <= j < t1.len() ==> !outranks(d1[i], t1[j]),
        forall|i: int, j: int| 0 <= i < d2.len() && 0 <= j < t2.len() ==> !outranks(d2[i], t2[j]),
    ensures
        t1 == t2,
    decreases t1.len(),
{
    broadcast use vstd::multiset::group_multiset_axioms;

    if t1.len() == 0 {
        assert(t1 =~= t2);
    } else {
        let v = t1[0];
        let w = t2[0];
        assert(t1.contains(v));
        assert(t2.contains(w));
        assert(t1.to_multiset().count(v) > 0);
        assert(t2.to_multiset().count(w) > 0);
        let m1 = t1.to_multiset().add(d1.to_multiset());
        let m2 = t2.to_multiset().add(d2.to_multiset());
        assert(m1.count(v) == t1.to_multiset().count(v) + d1.to_multiset().count(v));
        assert(m2.count(v) == t2.to_multiset().count(v) + d2.to_multiset().count(v));
        assert(m1.count(w) == t1.to_multiset().count(w) + d1.to_multiset().count(w));
        assert(m2.count(w) == t2.to_multiset().count(w) + d2.to_multiset().count(w));
        assert(!outranks(v, w)) by {
            if t2.to_multiset().count(v) > 0 {
                assert(t2.contains(v));
                let k = choose|k: int| 0 <= k < t2.len() && t2[k] == v;
                if k > 0 {
                    assert(!outranks(t2[k], t2[0]));
                } else {
                    lemma_outranks_order(v, w, v);
                }
            } else {
                assert(d2.to_multiset().count(v) > 0);
                assert(d2.contains(v));
                let k = choose|k: int| 0 <= k < d2.len() && d2[k] == v;
                assert(!outranks(d2[k], t2[0]));
            }
        }
        assert(!outranks(w, v)) by {
            if t1.to_multiset().count(w) > 0 {
                assert(t1.contains(w));
                let k = choose|k: int| 0 <= k < t1.len() && t1[k] == w;
                if k > 0 {
                    assert(!outranks(t1[k], t1[0]));
                } else {
                    lemma_outranks_order(w, v, w);
                }
            } else {
                assert(d1.to_multiset().count(w) > 0);
                assert(d1.contains(w));
                let k = choose|k: int| 0 <= k < d1.len() && d1[k] == w;
                assert(!outranks(d1[k], t1[0]));
            }
        }
        lemma_outranks_order(v, w, v);
        assert(v == w);
        let r1 = t1.drop_first();
        let r2 = t2.drop_first();
        assert(t1.remove(0) =~= r1);
        assert(t2.remove(0) =~= r2);
        assert(r1.to_multiset() == t1.to_multiset().remove(v));
        assert(r2.to_multiset() == t2.to_multiset().remove(v));
        assert(r1.to_multiset().add(d1.to_multiset()) =~= t1.to_multiset().add(
            d1.to_multiset(),
        ).remove(v));
        assert(r2.to_multiset().add(d2.to_multiset()) =~= t2.to_multiset().add(
            d2.to_multiset(),
        ).remove(v));
        assert forall|i: int, j: int|
            0 <= i < d1.len() && 0 <= j < r1.len() implies !outranks(d1[i], r1[j]) by {
            assert(r1[j] == t1[j + 1]);
        }
        assert forall|i: int, j: int|
            0 <= i < d2.len() && 0 <= j < r2.len() implies !outranks(d2[i], r2[j]) by {
            assert(r2[j] == t2[j + 1]);
        }
        assert forall|i: int, j: int| 0 <= i < j < r1.len() implies !outranks(r1[j], r1[i]) by {
            assert(r1[i] == t1[i + 1] && r1[j] == t1[j + 1]);
        }
        assert forall|i: int, j: int| 0 <= i < j < r2.len() implies !outranks(r2[j], r2[i]) by {
            assert(r2[i] == t2[i + 1] && r2[j] == t2[j + 1]);
        }
        lemma_rankings_agree(r1, d1, r2, d2);
        assert(t1 =~= seq![v] + r1);
        assert(t2 =~= seq![w] + r2);
    }
}

/// The ranking depends on which files were offered, not on the order they
/// came in: offering the same files in any order gives the same ranking.
pub proof fn lemma_top_of_order_free(s1: Seq<EntryView>, s2: Seq<EntryView>, limit: nat)
    requires
        s1.to_multiset() == s2.to_multiset(),
    ensures
        top_of(s1, limit) == top_of(s2, limit),
{
    let d1 = lemma_top_of_witness(s1, limit);
    let d2 = lemma_top_of_witness(s2, limit);
    assert(s1.to_multiset().len() == s1.len());
    assert(s2.to_multiset().len() == s2.len());
    lemma_rankings_agree(top_of(s1, limit), d1, top_of(s2, limit), d2);
}

/// Offering entries one by one never lets the ranking exceed its bound.
pub proof fn lemma_top_of_bounded(s: Seq<EntryView>, limit: nat)
    ensures
        top_of(s, limit).len() <= limit,
{
    lemma_top_of_witness(s, limit);
}

} // verus!
