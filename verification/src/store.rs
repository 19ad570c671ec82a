use vstd::prelude::*;

use crate::entry::{Entry, EntryView};

verus! {

/// The labels of a pair sequence are pairwise distinct.
pub open spec fn labels_distinct(s: Seq<(String, Entry)>) -> bool {
    forall|i: int, j: int| 0 <= i < j < s.len() ==> s[i].0@ != s[j].0@
}

/// The map that a pair sequence denotes; a later pair wins over an earlier
/// one with the same label (irrelevant once labels are distinct).
pub open spec fn pairs_to_map(s: Seq<(String, Entry)>) -> Map<Seq<char>, EntryView>
    decreases s.len(),
{
    if s.len() == 0 {
        Map::empty()
    } else {
        pairs_to_map(s.drop_last()).insert(s.last().0@, s.last().1@)
    }
}

/// The in-memory vault: a mapping from label to exactly one sealed record.
/// Insertion order carries no meaning; lookups are by exact label match.
#[derive(Debug)]
pub struct VaultMap {
    pub entries: Vec<(String, Entry)>,
}

impl View for VaultMap {
    type V = Map<Seq<char>, EntryView>;

    open spec fn view(&self) -> Map<Seq<char>, EntryView> {
        pairs_to_map(self.entries@)
    }
}

impl VaultMap {
    /// Well-formed: at most one record per label.
    pub open spec fn wf(&self) -> bool {
        labels_distinct(self.entries@)
    }

    /// The ordered label/record pairs, as mathematical values. Only the
    /// serialized form depends on this order.
    pub open spec fn pairs(&self) -> Seq<(Seq<char>, EntryView)> {
        self.entries@.map_values(|p: (String, Entry)| (p.0@, p.1@))
    }

    pub fn new() -> (r: VaultMap)
        ensures
            r.wf(),
            r@ == Map::<Seq<char>, EntryView>::empty(),
            r.entries@.len() == 0,
    {
        VaultMap { entries: Vec::new() }
    }

    /// Runtime check of the well-formedness invariant, for callers outside
    /// the verified world that must test it before relying on it.
    pub fn is_well_formed(&self) -> (r: bool)
        ensures
            r == self.wf(),
    {
        let n = self.entries.len();
        let mut i: usize = 0;
        while i < n
            invariant
                n == self.entries@.len(),
                i <= n,
                forall|a: int, b: int| 0 <= a < b < n && a < i ==> self.entries@[a].0@ != self.entries@[b].0@,
            decreases n - i,
        {
            let mut j: usize = i + 1;
            while j < n
                invariant
                    n == self.entries@.len(),
                    i < n,
                    i < j <= n,
                    forall|b: int| i < b < j ==> self.entries@[i as int].0@ != self.entries@[b].0@,
                decreases n - j,
            {
                if self.entries[i].0 == self.entries[j].0 {
                    return false;
                }
                j += 1;
            }
            i += 1;
        }
        true
    }

    pub fn len(&self) -> (r: usize)
        requires
            self.wf(),
        ensures
            r == self.entries@.len(),
            r == self@.dom().len(),
    {
        proof {
            lemma_pairs_to_map_len(self.entries@);
        }
        self.entries.len()
    }

    pub fn is_empty(&self) -> (r: bool)
        requires
            self.wf(),
        ensures
            r == (self@ == Map::<Seq<char>, EntryView>::empty()),
    {
        proof {
            lemma_pairs_to_map_len(self.entries@);
            if self.entries@.len() == 0 {
                assert(self@ =~= Map::<Seq<char>, EntryView>::empty());
            } else {
                assert(self@.dom().len() != 0);
                assert(self@ != Map::<Seq<char>, EntryView>::empty()) by {
                    if self@ == Map::<Seq<char>, EntryView>::empty() {
                        assert(self@.dom() =~= Set::<Seq<char>>::empty());
                    }
                }
            }
        }
        self.entries.len() == 0
    }
}

/// A pair sequence with distinct labels denotes a map whose domain has one
/// element per pair, and each pair's label maps to its record.
pub proof fn lemma_pairs_to_map_index(s: Seq<(String, Entry)>, i: int)
    requires
        labels_distinct(s),
        0 <= i < s.len(),
    ensures
        pairs_to_map(s).contains_key(s[i].0@),
        pairs_to_map(s)[s[i].0@] == s[i].1@,
    decreases s.len(),
{
    if i < s.len() - 1 {
        assert(labels_distinct(s.drop_last()));
        lemma_pairs_to_map_index(s.drop_last(), i);
        assert(s.drop_last()[i] == s[i]);
    }
}

/// Every key of the denoted map is the label of some pair.
pub proof fn lemma_pairs_to_map_key_origin(s: Seq<(String, Entry)>, k: Seq<char>)
    requires
        pairs_to_map(s).contains_key(k),
    ensures
        exists|i: int| 0 <= i < s.len() && s[i].0@ == k,
    decreases s.len(),
{
    if s.len() > 0 {
        if s.last().0@ == k {
            assert(s[s.len() - 1].0@ == k);
        } else {
            lemma_pairs_to_map_key_origin(s.drop_last(), k);
            let i = choose|i: int| 0 <= i < s.drop_last().len() && s.drop_last()[i].0@ == k;
            assert(s[i].0@ == k);
        }
    }
}

/// With distinct labels, the denoted map has exactly one key per pair.
pub proof fn lemma_pairs_to_map_len(s: Seq<(String, Entry)>)
    requires
        labels_distinct(s),
    ensures
        pairs_to_map(s).dom().finite(),
        pairs_to_map(s).dom().len() == s.len(),
    decreases s.len(),
{
    if s.len() > 0 {
        assert(labels_distinct(s.drop_last()));
        lemma_pairs_to_map_len(s.drop_last());
        if pairs_to_map(s.drop_last()).contains_key(s.last().0@) {
            lemma_pairs_to_map_key_origin(s.drop_last(), s.last().0@);
            let i = choose|i: int| 0 <= i < s.drop_last().len() && s.drop_last()[i].0@ == s.last().0@;
            assert(s[i].0@ == s[s.len() - 1].0@);
            assert(false);
        }
        assert(pairs_to_map(s).dom() =~= pairs_to_map(s.drop_last()).dom().insert(s.last().0@));
    } else {
        assert(pairs_to_map(s).dom() =~= Set::<Seq<char>>::empty());
    }
}

/// Unconditional upsert: if `label` already has a record, that record is
/// discarded in full and replaced; otherwise the pair is added.
pub fn add_entry(entries: &mut VaultMap, label: String, entry: Entry)
    requires
        old(entries).wf(),
    ensures
        final(entries).wf(),
        final(entries)@ == old(entries)@.insert(label@, entry@),
        !old(entries)@.contains_key(label@) ==> final(entries).entries@ == old(
            entries,
        ).entries@.push((label, entry)),
{
    let ghost s0 = entries.entries@;
    let n = entries.entries.len();
    let mut i: usize = 0;
    while i < n
        invariant
            labels_distinct(s0),
            s0 == old(entries).entries@,
            entries.entries@ == s0,
            n == s0.len(),
            i <= n,
            forall|j: int| 0 <= j < i ==> s0[j].0@ != label@,
        decreases n - i,
    {
        if entries.entries[i].0 == label {
            proof {
                lemma_pairs_to_map_index(s0, i as int);
                lemma_replace_at(s0, i as int, label, entry);
            }
            entries.entries.remove(i);
            entries.entries.push((label, entry));
            proof {
                assert(entries.entries@ =~= s0.remove(i as int).push((label, entry)));
            }
            return;
        }
        i += 1;
    }
    entries.entries.push((label, entry));
    proof {
        assert(entries.entries@.drop_last() =~= s0);
    }
}

/// Removing the pair whose label matches and appending the new pair yields
/// a distinct-label sequence denoting the upserted map.
proof fn lemma_replace_at(s: Seq<(String, Entry)>, i: int, label: String, entry: Entry)
    requires
        labels_distinct(s),
        0 <= i < s.len(),
        s[i].0@ == label@,
        forall|j: int| 0 <= j < i ==> s[j].0@ != label@,
    ensures
        labels_distinct(s.remove(i).push((label, entry))),
        pairs_to_map(s.remove(i).push((label, entry))) == pairs_to_map(s).insert(label@, entry@),
{
    let t = s.remove(i).push((label, entry));
    assert forall|a: int, b: int| 0 <= a < b < t.len() implies t[a].0@ != t[b].0@ by {
        if b < t.len() - 1 {
            let a0 = if a < i { a } else { a + 1 };
            let b0 = if b < i { b } else { b + 1 };
            assert(t[a] == s[a0] && t[b] == s[b0]);
        } else {
            let a0 = if a < i { a } else { a + 1 };
            assert(t[a] == s[a0]);
            assert(a0 != i);
        }
    }
    lemma_remove_then_insert(s, i, label, entry);
}

/// Denotation of `remove(i)` then upsert of the removed label.
proof fn lemma_remove_then_insert(s: Seq<(String, Entry)>, i: int, label: String, entry: Entry)
    requires
        labels_distinct(s),
        0 <= i < s.len(),
        s[i].0@ == label@,
    ensures
        pairs_to_map(s.remove(i).push((label, entry))) == pairs_to_map(s).insert(label@, entry@),
{
    lemma_remove_denotation(s, i);
    let t = s.remove(i).push((label, entry));
    assert(t.drop_last() =~= s.remove(i));
    assert(pairs_to_map(t) == pairs_to_map(s.remove(i)).insert(label@, entry@));
    assert(pairs_to_map(s).remove(label@).insert(label@, entry@) =~= pairs_to_map(s).insert(label@, entry@));
}

/// Removes the labelled pair if present, reporting whether anything was
/// removed; absence is not an error and leaves the map unchanged.
pub fn delete_entry(entries: &mut VaultMap, label: String) -> (r: bool)
    requires
        old(entries).wf(),
    ensures
        final(entries).wf(),
        r == old(entries)@.contains_key(label@),
        final(entries)@ == old(entries)@.remove(label@),
{
    let ghost s0 = entries.entries@;
    let n = entries.entries.len();
    let mut i: usize = 0;
    while i < n
        invariant
            labels_distinct(s0),
            s0 == old(entries).entries@,
            entries.entries@ == s0,
            n == s0.len(),
            i <= n,
            forall|j: int| 0 <= j < i ==> s0[j].0@ != label@,
        decreases n - i,
    {
        if entries.entries[i].0 == label {
            proof {
                lemma_pairs_to_map_index(s0, i as int);
                lemma_remove_denotation(s0, i as int);
            }
            entries.entries.remove(i);
            return true;
        }
        i += 1;
    }
    proof {
        if entries@.contains_key(label@) {
            lemma_pairs_to_map_key_origin(s0, label@);
        }
        assert(entries@ =~= entries@.remove(label@));
    }
    false
}

/// Removing the one pair with a given label removes exactly that key.
proof fn lemma_remove_denotation(s: Seq<(String, Entry)>, i: int)
    requires
        labels_distinct(s),
        0 <= i < s.len(),
    ensures
        labels_distinct(s.remove(i)),
        pairs_to_map(s.remove(i)) == pairs_to_map(s).remove(s[i].0@),
    decreases s.len(),
{
    let t = s.remove(i);
    assert forall|a: int, b: int| 0 <= a < b < t.len() implies t[a].0@ != t[b].0@ by {
        let a0 = if a < i { a } else { a + 1 };
        let b0 = if b < i { b } else { b + 1 };
        assert(t[a] == s[a0] && t[b] == s[b0]);
    }
    if i == s.len() - 1 {
        if pairs_to_map(s.drop_last()).contains_key(s[i].0@) {
            lemma_pairs_to_map_key_origin(s.drop_last(), s[i].0@);
            let j = choose|j: int| 0 <= j < s.drop_last().len() && s.drop_last()[j].0@ == s[i].0@;
            assert(s[j].0@ == s[i].0@);
            assert(false);
        }
        assert(t =~= s.drop_last());
        assert(pairs_to_map(t) =~= pairs_to_map(s).remove(s[i].0@));
    } else {
        assert(labels_distinct(s.drop_last()));
        lemma_remove_denotation(s.drop_last(), i);
        assert(t.drop_last() =~= s.drop_last().remove(i));
        assert(t.last() == s.last());
        assert(pairs_to_map(t) == pairs_to_map(s.drop_last()).remove(s[i].0@).insert(s.last().0@, s.last().1@));
        assert(pairs_to_map(t) =~= pairs_to_map(s).remove(s[i].0@));
    }
}

/// Upsert law: inserting a second record under a label already inserted
/// leaves only the second; the first is gone from the mapping entirely.
/// With `add_entry`'s and `read_entry`'s contracts: after adding `r1` then
/// `r2` under one label, lookup of that label yields `r2`.
pub proof fn lemma_upsert_overwrites(
    m: Map<Seq<char>, EntryView>,
    label: Seq<char>,
    r1: EntryView,
    r2: EntryView,
)
    ensures
        m.insert(label, r1).insert(label, r2) == m.insert(label, r2),
        m.insert(label, r1).insert(label, r2)[label] == r2,
{
    assert(m.insert(label, r1).insert(label, r2) =~= m.insert(label, r2));
}

/// Delete law: removing an absent label changes nothing — with
/// `delete_entry`'s contract, the call reports `false` and the mapping
/// stands as it was; after a successful removal the label is absent.
pub proof fn lemma_remove_semantics(m: Map<Seq<char>, EntryView>, label: Seq<char>)
    ensures
        !m.contains_key(label) ==> m.remove(label) == m,
        !m.remove(label).contains_key(label),
{
    if !m.contains_key(label) {
        assert(m.remove(label) =~= m);
    }
}

/// Read-only lookup by exact label; absence is represented, not an error.
pub fn read_entry<'a>(entries: &'a VaultMap, label: &String) -> (r: Option<&'a Entry>)
    requires
        entries.wf(),
    ensures
        match r {
            Some(e) => entries@.contains_key(label@) && e@ == entries@[label@],
            None => !entries@.contains_key(label@),
        },
{
    let n = entries.entries.len();
    let mut i: usize = 0;
    while i < n
        invariant
            entries.wf(),
            n == entries.entries@.len(),
            i <= n,
            forall|j: int| 0 <= j < i ==> entries.entries@[j].0@ != label@,
        decreases n - i,
    {
        if entries.entries[i].0 == *label {
            proof {
                lemma_pairs_to_map_index(entries.entries@, i as int);
            }
            return Some(&entries.entries[i].1);
        }
        i += 1;
    }
    proof {
        if entries@.contains_key(label@) {
            lemma_pairs_to_map_key_origin(entries.entries@, label@);
        }
    }
    None
}

} // verus!
