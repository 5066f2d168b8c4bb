use std::collections::HashMap;
use vstd::prelude::*;
use vstd::std_specs::hash::*;
use vstd::string::*;
use crate::text::same_text;

verus! {

broadcast use group_hash_axioms;

/// A table from node identity to a text, such as a slot or a value.
#[derive(Clone, Debug)]
pub struct TextTable {
    pub map: HashMap<u64, String>,
}

impl View for TextTable {
    type V = Map<u64, Seq<char>>;

    open spec fn view(&self) -> Map<u64, Seq<char>> {
        self.map@.map_values(|s: String| s@)
    }
}

/// The entries of a list of writes, each text as its characters.
pub open spec fn entry_views(entries: Seq<(u64, String)>) -> Seq<(u64, Seq<char>)> {
    entries.map_values(|e: (u64, String)| (e.0, e.1@))
}

/// Whether the writes agree with the table and with one another: no key is given a
/// text that differs from the one the table holds or from an earlier write.
pub open spec fn writes_agree(m: Map<u64, Seq<char>>, entries: Seq<(u64, Seq<char>)>) -> bool {
    &&& forall|i: int|
        0 <= i < entries.len() && m.contains_key((#[trigger] entries[i]).0) ==> m[entries[i].0]
            == entries[i].1
    &&& forall|i: int, j: int|
        0 <= i < j < entries.len() && (#[trigger] entries[i]).0 == (#[trigger] entries[j]).0
            ==> entries[i].1 == entries[j].1
}

/// The table after the writes, one after the other.
pub open spec fn with_writes(m: Map<u64, Seq<char>>, entries: Seq<(u64, Seq<char>)>) -> Map<
    u64,
    Seq<char>,
>
    decreases entries.len(),
{
    if entries.len() == 0 {
        m
    } else {
        with_writes(m, entries.drop_last()).insert(entries.last().0, entries.last().1)
    }
}

/// The keys of a list of writes.
pub open spec fn entry_keys(entries: Seq<(u64, Seq<char>)>) -> Seq<u64> {
    entries.map_values(|e: (u64, Seq<char>)| e.0)
}

/// After the writes the table holds what it held and the keys written, no more.
pub proof fn lemma_with_writes_domain(m: Map<u64, Seq<char>>, entries: Seq<(u64, Seq<char>)>)
    ensures
        forall|k: u64| #[trigger]
            with_writes(m, entries).contains_key(k) <==> m.contains_key(k) || entry_keys(
                entries,
            ).contains(k),
    decreases entries.len(),
{
    if entries.len() > 0 {
        let head = entries.drop_last();
        lemma_with_writes_domain(m, head);
        assert forall|k: u64| #[trigger]
            with_writes(m, entries).contains_key(k) <==> m.contains_key(k) || entry_keys(
                entries,
            ).contains(k) by {
            assert(with_writes(m, entries).contains_key(k) <==> with_writes(m, head).contains_key(
                k,
            ) || k == entries.last().0);
            if entry_keys(entries).contains(k) {
                let i = choose|i: int|
                    0 <= i < entry_keys(entries).len() && entry_keys(entries)[i] == k;
                if i < head.len() {
                    assert(entry_keys(head)[i] == k);
                    assert(entry_keys(head).contains(k));
                } else {
                    assert(k == entries.last().0);
                }
            }
            if entry_keys(head).contains(k) {
                let i = choose|i: int| 0 <= i < entry_keys(head).len() && entry_keys(head)[i] == k;
                assert(entry_keys(entries)[i] == k);
                assert(entry_keys(entries).contains(k));
            }
            if k == entries.last().0 {
                assert(entry_keys(entries)[entries.len() - 1] == k);
                assert(entry_keys(entries).contains(k));
            }
        }
    }
}

/// Where the writes agree, the table keeps every text it held.
pub proof fn lemma_with_writes_keeps(m: Map<u64, Seq<char>>, entries: Seq<(u64, Seq<char>)>)
    requires
        writes_agree(m, entries),
    ensures
        forall|k: u64| #[trigger] m.contains_key(k) ==> with_writes(m, entries).contains_key(k)
            && with_writes(m, entries)[k] == m[k],
        forall|i: int|
            0 <= i < entries.len() ==> with_writes(m, entries).contains_key(
                (#[trigger] entries[i]).0,
            ) && with_writes(m, entries)[entries[i].0] == entries[i].1,
    decreases entries.len(),
{
    if entries.len() > 0 {
        let head = entries.drop_last();
        assert(writes_agree(m, head)) by {
            assert forall|i: int| 0 <= i < head.len() && m.contains_key(
                (#[trigger] head[i]).0,
            ) implies m[head[i].0] == head[i].1 by {
                assert(head[i] == entries[i]);
            }
            assert forall|i: int, j: int|
                0 <= i < j < head.len() && (#[trigger] head[i]).0 == (
                #[trigger] head[j]).0 implies head[i].1 == head[j].1 by {
                assert(head[i] == entries[i] && head[j] == entries[j]);
            }
        }
        lemma_with_writes_keeps(m, head);
        let last = entries.last();
        assert(last == entries[entries.len() - 1]);
        assert forall|i: int| 0 <= i < entries.len() implies with_writes(m, entries).contains_key(
            (#[trigger] entries[i]).0,
        ) && with_writes(m, entries)[entries[i].0] == entries[i].1 by {
            if i < head.len() {
                assert(head[i] == entries[i]);
            }
        }
    }
}

/// The table without the given keys.
pub open spec fn without_keys(m: Map<u64, Seq<char>>, ids: Seq<u64>) -> Map<u64, Seq<char>>
    decreases ids.len(),
{
    if ids.len() == 0 {
        m
    } else {
        without_keys(m, ids.drop_last()).remove(ids.last())
    }
}

/// A table without some keys holds what it held under every other key, and nothing
/// under those.
pub proof fn lemma_without_keys(m: Map<u64, Seq<char>>, ids: Seq<u64>)
    ensures
        forall|k: u64| #[trigger]
            without_keys(m, ids).contains_key(k) <==> m.contains_key(k) && !ids.contains(k),
        forall|k: u64| #[trigger]
            without_keys(m, ids).contains_key(k) ==> without_keys(m, ids)[k] == m[k],
    decreases ids.len(),
{
    if ids.len() > 0 {
        let head = ids.drop_last();
        lemma_without_keys(m, head);
        let inner = without_keys(m, head);
        let outer = without_keys(m, ids);
        assert(outer == inner.remove(ids.last()));
        assert forall|k: u64| #[trigger]
            outer.contains_key(k) <==> m.contains_key(k) && !ids.contains(k) by {
            assert(outer.contains_key(k) <==> inner.contains_key(k) && k != ids.last());
            assert(inner.contains_key(k) <==> m.contains_key(k) && !head.contains(k));
            if ids.contains(k) {
                let i = choose|i: int| 0 <= i < ids.len() && ids[i] == k;
                if i < head.len() {
                    assert(head[i] == k);
                    assert(head.contains(k));
                } else {
                    assert(k == ids.last());
                }
            }
            if head.contains(k) {
                let i = choose|i: int| 0 <= i < head.len() && head[i] == k;
                assert(ids[i] == k);
                assert(ids.contains(k));
            }
            if k == ids.last() {
                assert(ids[ids.len() - 1] == k);
                assert(ids.contains(k));
            }
        }
        assert forall|k: u64| #[trigger] outer.contains_key(k) implies outer[k] == m[k] by {
            assert(inner.contains_key(k));
            assert(outer[k] == inner[k]);
        }
    }
}

/// Writes are undone by taking out the keys they added: a table with writes that
/// agree with it, less the keys it did not hold before, is the table it was.
pub proof fn lemma_writes_undone(
    m: Map<u64, Seq<char>>,
    entries: Seq<(u64, Seq<char>)>,
    added: Seq<u64>,
)
    requires
        writes_agree(m, entries),
        forall|i: int|
            0 <= i < entries.len() && !m.contains_key((#[trigger] entries[i]).0)
                ==> added.contains(entries[i].0),
        forall|j: int| 0 <= j < added.len() ==> !m.contains_key(#[trigger] added[j]),
    ensures
        without_keys(with_writes(m, entries), added) == m,
{
    let written = with_writes(m, entries);
    let undone = without_keys(written, added);
    lemma_with_writes_domain(m, entries);
    lemma_with_writes_keeps(m, entries);
    lemma_without_keys(written, added);
    assert forall|k: u64| undone.contains_key(k) <==> m.contains_key(k) by {
        if m.contains_key(k) {
            assert(written.contains_key(k));
            if added.contains(k) {
                let j = choose|j: int| 0 <= j < added.len() && added[j] == k;
                assert(!m.contains_key(added[j]));
            }
        }
        if undone.contains_key(k) && !m.contains_key(k) {
            assert(written.contains_key(k));
            assert(entry_keys(entries).contains(k));
            let i = choose|i: int| 0 <= i < entry_keys(entries).len() && entry_keys(entries)[i] == k;
            assert(entries[i].0 == k);
            assert(added.contains(entries[i].0));
        }
    }
    assert forall|k: u64| undone.contains_key(k) implies undone[k] == m[k] by {
        assert(written.contains_key(k));
    }
    assert(undone =~= m);
}

impl TextTable {
    /// The keys among the writes that the table does not hold, in the order of the
    /// writes: the keys that recording the writes would add.
    pub fn fresh_keys(&self, entries: &Vec<(u64, String)>) -> (added: Vec<u64>)
        ensures
            forall|i: int|
                0 <= i < entries@.len() && !self@.contains_key((#[trigger] entries@[i]).0)
                    ==> added@.contains(entries@[i].0),
            forall|j: int| 0 <= j < added@.len() ==> !self@.contains_key(#[trigger] added@[j]),
    {
        let mut added: Vec<u64> = Vec::new();
        let mut i: usize = 0;
        while i < entries.len()
            invariant
                i <= entries.len(),
                forall|k: int|
                    0 <= k < i && !self@.contains_key((#[trigger] entries@[k]).0)
                        ==> added@.contains(entries@[k].0),
                forall|j: int| 0 <= j < added@.len() ==> !self@.contains_key(#[trigger] added@[j]),
            decreases entries.len() - i,
        {
            let id = entries[i].0;
            let ghost before = added@;
            if !self.contains(id) {
                added.push(id);
                assert(added@[before.len() as int] == id);
            }
            proof {
                assert forall|k: int|
                    0 <= k < i + 1 && !self@.contains_key((#[trigger] entries@[k]).0) implies added@.contains(
                    entries@[k].0,
                ) by {
                    if k < i {
                        let j = choose|j: int| 0 <= j < before.len() && before[j] == entries@[k].0;
                        assert(added@[j] == entries@[k].0);
                    }
                }
            }
            i += 1;
        }
        added
    }

    /// Takes out what is recorded for `id`, if anything.
    pub fn remove(&mut self, id: u64)
        ensures
            final(self)@ == old(self)@.remove(id),
    {
        self.map.remove(&id);
        assert(self@ =~= old(self)@.remove(id));
    }

    /// Takes out what is recorded for each of the keys.
    pub fn forget(&mut self, ids: &Vec<u64>)
        ensures
            final(self)@ == without_keys(old(self)@, ids@),
    {
        let mut i: usize = 0;
        while i < ids.len()
            invariant
                i <= ids.len(),
                self@ == without_keys(old(self)@, ids@.take(i as int)),
            decreases ids.len() - i,
        {
            assert(ids@.take(i + 1).drop_last() =~= ids@.take(i as int));
            self.remove(ids[i]);
            i += 1;
        }
        assert(ids@.take(i as int) =~= ids@);
    }

    /// An empty table.
    pub fn new() -> (t: Self)
        ensures
            t@ == Map::<u64, Seq<char>>::empty(),
    {
        let t = TextTable { map: HashMap::new() };
        assert(t@ =~= Map::<u64, Seq<char>>::empty());
        t
    }

    /// The text recorded for `id`, if there is one.
    pub fn get(&self, id: u64) -> (r: Option<&String>)
        ensures
            match r {
                Some(s) => self@.contains_key(id) && self@[id] == s@,
                None => !self@.contains_key(id),
            },
    {
        self.map.get(&id)
    }

    /// Whether a text is recorded for `id`.
    pub fn contains(&self, id: u64) -> (r: bool)
        ensures
            r == self@.contains_key(id),
    {
        self.map.contains_key(&id)
    }

    /// Records `text` for `id`, in place of what was there.
    pub fn insert(&mut self, id: u64, text: String)
        ensures
            final(self)@ == old(self)@.insert(id, text@),
    {
        self.map.insert(id, text);
        assert(self@ =~= old(self)@.insert(id, text@));
    }

    /// Whether the writes agree with the table and with one another.
    pub fn agrees(&self, entries: &Vec<(u64, String)>) -> (r: bool)
        ensures
            r == writes_agree(self@, entry_views(entries@)),
    {
        let ghost views = entry_views(entries@);
        let mut first: HashMap<u64, usize> = HashMap::new();
        let mut i: usize = 0;
        while i < entries.len()
            invariant
                i <= entries.len(),
                views == entry_views(entries@),
                writes_agree(self@, views.take(i as int)),
                forall|k: u64| #[trigger]
                    first@.contains_key(k) ==> first@[k] < i && views[first@[k] as int].0 == k,
                forall|j: int| 0 <= j < i ==> first@.contains_key((#[trigger] views[j]).0),
            decreases entries.len() - i,
        {
            let id = entries[i].0;
            assert(views[i as int] == (id, entries@[i as int].1@));
            match self.get(id) {
                Some(held) => {
                    if !same_text(held.as_str(), entries[i].1.as_str()) {
                        return false;
                    }
                },
                None => {},
            }
            let ghost prev = first@;
            match first.get(&id) {
                Some(j) => {
                    let j: usize = *j;
                    assert(views[j as int] == (entries@[j as int].0, entries@[j as int].1@));
                    if !same_text(entries[j].1.as_str(), entries[i].1.as_str()) {
                        return false;
                    }
                },
                None => {
                    first.insert(id, i);
                },
            }
            proof {
                let next = views.take(i + 1);
                assert forall|a: int| 0 <= a < next.len() && self@.contains_key(
                    (#[trigger] next[a]).0,
                ) implies self@[next[a].0] == next[a].1 by {
                    if a < i {
                        assert(views.take(i as int)[a] == next[a]);
                    }
                }
                assert forall|a: int, b: int|
                    0 <= a < b < next.len() && (#[trigger] next[a]).0 == (
                    #[trigger] next[b]).0 implies next[a].1 == next[b].1 by {
                    if b < i {
                        assert(views.take(i as int)[a] == next[a]);
                        assert(views.take(i as int)[b] == next[b]);
                    } else {
                        // `b` is the write just checked. An earlier write of its key
                        // agrees with the first such write, which was compared to it.
                        assert(next[a] == views[a] && next[b] == views[i as int]);
                        assert(prev.contains_key(views[a].0));
                        let j = prev[id] as int;
                        assert(views.take(i as int)[j] == views[j]);
                        assert(views.take(i as int)[a] == views[a]);
                    }
                }
            }
            i += 1;
        }
        assert(views.take(i as int) =~= views);
        true
    }

    /// Records every write, one after the other.
    pub fn record(&mut self, entries: &Vec<(u64, String)>)
        ensures
            final(self)@ == with_writes(old(self)@, entry_views(entries@)),
    {
        let ghost views = entry_views(entries@);
        let mut i: usize = 0;
        while i < entries.len()
            invariant
                i <= entries.len(),
                views == entry_views(entries@),
                self@ == with_writes(old(self)@, views.take(i as int)),
            decreases entries.len() - i,
        {
            assert(views.take(i + 1).drop_last() =~= views.take(i as int));
            assert(views.take(i + 1).last() == (entries@[i as int].0, entries@[i as int].1@));
            self.insert(entries[i].0, entries[i].1.clone());
            i += 1;
        }
        assert(views.take(i as int) =~= views);
    }
}

} // verus!
