//! Queues of connections kept under a key, and the removal of connections
//! from them by their ids.
use vstd::prelude::*;
use crate::text::str_eq;
use vstd::string::StringExecFns;

verus! {

/// A connection entry that can be found again by its id.
pub trait IRemove {
    /// The id of the entry.
    spec fn spec_id(&self) -> Seq<char>;

    /// The id of the entry.
    fn id(&self) -> (r: &str)
        ensures
            r@ == self.spec_id(),
    ;
}

/// The texts of some strings.
pub open spec fn string_views(v: Seq<String>) -> Seq<Seq<char>> {
    v.map_values(|s: String| s@)
}

/// The ids of the entries of a queue, in order.
pub open spec fn ids_in<T: IRemove>(queue: Seq<T>) -> Seq<Seq<char>> {
    queue.map_values(|x: T| x.spec_id())
}

/// `queue` without its first entry whose id is `id`; unchanged where there is
/// none.
pub open spec fn remove_first<T: IRemove>(queue: Seq<T>, id: Seq<char>) -> Seq<T>
    decreases queue.len(),
{
    if queue.len() == 0 {
        queue
    } else if queue[0].spec_id() == id {
        queue.drop_first()
    } else {
        seq![queue[0]] + remove_first(queue.drop_first(), id)
    }
}

/// `queue` after removing, for each id of `ids` in turn, the first entry with
/// that id.
pub open spec fn remove_ids<T: IRemove>(queue: Seq<T>, ids: Seq<Seq<char>>) -> Seq<T>
    decreases ids.len(),
{
    if ids.len() == 0 {
        queue
    } else {
        remove_first(remove_ids(queue, ids.drop_last()), ids.last())
    }
}

/// The entries of `queue` whose id is `id`.
pub open spec fn with_id<T: IRemove>(queue: Seq<T>, id: Seq<char>) -> Seq<T> {
    queue.filter(id_is::<T>(id))
}

/// The test "has id `id`".
pub open spec fn id_is<T: IRemove>(id: Seq<char>) -> spec_fn(T) -> bool {
    |x: T| x.spec_id() == id
}

/// The position of the first entry of `queue` whose id is `id`, if any.
pub fn position_of<T: IRemove>(queue: &Vec<T>, id: &str) -> (res: Option<usize>)
    ensures
        match res {
            Some(j) => j < queue@.len() && queue@[j as int].spec_id() == id@ && forall|k: int|
                0 <= k < j ==> #[trigger] queue@[k].spec_id() != id@,
            None => forall|k: int| 0 <= k < queue@.len() ==> #[trigger] queue@[k].spec_id() != id@,
        },
{
    let mut j: usize = 0;
    while j < queue.len()
        invariant
            j <= queue@.len(),
            forall|k: int| 0 <= k < j ==> #[trigger] queue@[k].spec_id() != id@,
        decreases queue@.len() - j,
    {
        if str_eq(queue[j].id(), id) {
            return Some(j);
        }
        j = j + 1;
    }
    None
}

proof fn lemma_remove_first_at<T: IRemove>(queue: Seq<T>, id: Seq<char>, j: int)
    requires
        0 <= j < queue.len(),
        queue[j].spec_id() == id,
        forall|k: int| 0 <= k < j ==> #[trigger] queue[k].spec_id() != id,
    ensures
        remove_first(queue, id) == queue.remove(j),
    decreases j,
{
    if j == 0 {
        assert(queue.drop_first() =~= queue.remove(0));
    } else {
        let rest = queue.drop_first();
        assert forall|k: int| 0 <= k < j - 1 implies #[trigger] rest[k].spec_id() != id by {
            assert(rest[k] == queue[k + 1]);
        }
        lemma_remove_first_at(rest, id, j - 1);
        assert(seq![queue[0]] + rest.remove(j - 1) =~= queue.remove(j));
    }
}

proof fn lemma_remove_first_absent<T: IRemove>(queue: Seq<T>, id: Seq<char>)
    requires
        forall|k: int| 0 <= k < queue.len() ==> #[trigger] queue[k].spec_id() != id,
    ensures
        remove_first(queue, id) == queue,
    decreases queue.len(),
{
    if queue.len() > 0 {
        let rest = queue.drop_first();
        assert forall|k: int| 0 <= k < rest.len() implies #[trigger] rest[k].spec_id() != id by {
            assert(rest[k] == queue[k + 1]);
        }
        lemma_remove_first_absent(rest, id);
        assert(seq![queue[0]] + rest =~= queue);
    }
}

/// Removes the first entry whose id is `id`, if there is one.
pub fn remove_first_with_id<T: IRemove>(queue: &mut Vec<T>, id: &str)
    ensures
        final(queue)@ == remove_first(old(queue)@, id@),
{
    match position_of(queue, id) {
        Some(pos) => {
            proof { lemma_remove_first_at(queue@, id@, pos as int); }
            queue.remove(pos);
        },
        None => {
            proof { lemma_remove_first_absent(queue@, id@); }
        },
    }
}

/// For each id of `rmIds` in turn, removes the first entry of `queue` with
/// that id.
#[allow(non_snake_case)]
pub fn removeItemsFromSet<T: IRemove>(rmIds: &Vec<String>, queue: &mut Vec<T>)
    ensures
        final(queue)@ == remove_ids(old(queue)@, string_views(rmIds@)),
{
    let ghost ids = string_views(rmIds@);
    let mut i: usize = 0;
    while i < rmIds.len()
        invariant
            i <= rmIds@.len(),
            ids == string_views(rmIds@),
            queue@ == remove_ids(old(queue)@, ids.subrange(0, i as int)),
        decreases rmIds@.len() - i,
    {
        remove_first_with_id(queue, rmIds[i].as_str());
        proof {
            assert(ids.subrange(0, i + 1).drop_last() =~= ids.subrange(0, i as int));
        }
        i = i + 1;
    }
    assert(ids.subrange(0, rmIds@.len() as int) =~= ids);
}

proof fn lemma_filter_cons<T>(x: T, rest: Seq<T>, pred: spec_fn(T) -> bool)
    ensures
        (seq![x] + rest).filter(pred) == (if pred(x) { seq![x] } else { Seq::empty() }) + rest.filter(pred),
{
    Seq::filter_distributes_over_add(seq![x], rest, pred);
    reveal(Seq::filter);
    assert(seq![x].drop_last() =~= Seq::<T>::empty());
    assert(Seq::<T>::empty().filter(pred) =~= Seq::<T>::empty());
    assert(seq![x].last() == x);
    if pred(x) {
        assert(Seq::<T>::empty().push(x) =~= seq![x]);
    }
}

/// Removing the first entry with one id leaves the entries with any other id
/// as they were, in their order.
pub proof fn lemma_remove_first_keeps_others<T: IRemove>(queue: Seq<T>, id: Seq<char>, other: Seq<char>)
    requires
        other != id,
    ensures
        with_id(remove_first(queue, id), other) == with_id(queue, other),
    decreases queue.len(),
{
    let pred = id_is::<T>(other);
    if queue.len() > 0 {
        let rest = queue.drop_first();
        assert(seq![queue[0]] + rest =~= queue);
        lemma_filter_cons(queue[0], rest, pred);
        if queue[0].spec_id() == id {
            assert(Seq::<T>::empty() + rest.filter(pred) =~= rest.filter(pred));
        } else {
            lemma_remove_first_keeps_others(rest, id, other);
            lemma_filter_cons(queue[0], remove_first(rest, id), pred);
        }
    }
}

/// Removing entries by their ids leaves the entries of every id not among
/// them as they were, in their order.
pub proof fn lemma_remove_ids_keeps_others<T: IRemove>(queue: Seq<T>, ids: Seq<Seq<char>>, other: Seq<char>)
    requires
        !ids.contains(other),
    ensures
        with_id(remove_ids(queue, ids), other) == with_id(queue, other),
    decreases ids.len(),
{
    if ids.len() > 0 {
        assert(!ids.drop_last().contains(other)) by {
            if ids.drop_last().contains(other) {
                let k = choose|k: int| 0 <= k < ids.drop_last().len() && ids.drop_last()[k] == other;
                assert(ids[k] == other);
            }
        }
        lemma_remove_ids_keeps_others(queue, ids.drop_last(), other);
        assert(ids.last() != other) by {
            if ids.last() == other {
                assert(ids[ids.len() - 1] == other);
            }
        }
        lemma_remove_first_keeps_others(remove_ids(queue, ids.drop_last()), ids.last(), other);
    }
}

proof fn lemma_remove_first_within<T: IRemove>(queue: Seq<T>, id: Seq<char>)
    ensures
        queue.len() - 1 <= remove_first(queue, id).len() <= queue.len(),
        forall|x: T| remove_first(queue, id).contains(x) ==> queue.contains(x),
    decreases queue.len(),
{
    if queue.len() > 0 {
        let rest = queue.drop_first();
        lemma_remove_first_within(rest, id);
        let r = remove_first(queue, id);
        assert forall|x: T| r.contains(x) implies queue.contains(x) by {
            let k = choose|k: int| 0 <= k < r.len() && r[k] == x;
            if queue[0].spec_id() == id {
                assert(r == rest);
                assert(rest[k] == queue[k + 1]);
            } else {
                let tail = remove_first(rest, id);
                assert(r == seq![queue[0]] + tail);
                if k == 0 {
                    assert(queue[0] == x);
                } else {
                    assert(tail[k - 1] == x);
                    assert(tail.contains(x));
                    assert(rest.contains(x));
                    let m = choose|m: int| 0 <= m < rest.len() && rest[m] == x;
                    assert(rest[m] == queue[m + 1]);
                }
            }
        }
    }
}

/// Removing entries by a list of ids takes out at most one entry per id,
/// and leaves nothing that was not there before.
pub proof fn lemma_remove_ids_within<T: IRemove>(queue: Seq<T>, ids: Seq<Seq<char>>)
    ensures
        queue.len() - ids.len() <= remove_ids(queue, ids).len() <= queue.len(),
        forall|x: T| remove_ids(queue, ids).contains(x) ==> queue.contains(x),
    decreases ids.len(),
{
    if ids.len() > 0 {
        lemma_remove_ids_within(queue, ids.drop_last());
        lemma_remove_first_within(remove_ids(queue, ids.drop_last()), ids.last());
    }
}

/// Removing the first entry with an id takes out exactly one entry where the
/// queue has one with that id, and none where it has not.
pub proof fn lemma_remove_first_len<T: IRemove>(queue: Seq<T>, id: Seq<char>)
    ensures
        (exists|k: int| 0 <= k < queue.len() && #[trigger] queue[k].spec_id() == id)
            ==> remove_first(queue, id).len() == queue.len() - 1,
        (forall|k: int| 0 <= k < queue.len() ==> #[trigger] queue[k].spec_id() != id)
            ==> remove_first(queue, id) == queue,
    decreases queue.len(),
{
    if queue.len() > 0 {
        let rest = queue.drop_first();
        lemma_remove_first_len(rest, id);
        if queue[0].spec_id() != id {
            if exists|k: int| 0 <= k < queue.len() && #[trigger] queue[k].spec_id() == id {
                let k = choose|k: int| 0 <= k < queue.len() && #[trigger] queue[k].spec_id() == id;
                assert(rest[k - 1] == queue[k]);
            }
            if forall|k: int| 0 <= k < queue.len() ==> #[trigger] queue[k].spec_id() != id {
                assert forall|k: int| 0 <= k < rest.len() implies #[trigger] rest[k].spec_id() != id by {
                    assert(rest[k] == queue[k + 1]);
                }
                assert(seq![queue[0]] + rest =~= queue);
            }
        }
    }
}

/// Queues kept under text keys as a list of `(key, queue)` entries.
struct KeyedEntries<T> {
    entries: Vec<(String, Vec<T>)>,
}

/// `m` after `item` joins the end of the queue under `key`, which starts
/// where there is none.
pub open spec fn with_registered<T>(m: Map<Seq<char>, Seq<T>>, key: Seq<char>, item: T) -> Map<Seq<char>, Seq<T>> {
    m.insert(key, if m.contains_key(key) { m[key].push(item) } else { seq![item] })
}

/// `m` after the connection `id` left each queue (its first entry there).
pub open spec fn without_connection<T: IRemove>(m: Map<Seq<char>, Seq<T>>, id: Seq<char>) -> Map<Seq<char>, Seq<T>> {
    Map::new(|k: Seq<char>| m.contains_key(k), |k: Seq<char>| remove_first(m[k], id))
}

/// No queue of `m` holds an entry with id `id`.
pub open spec fn id_unused<T: IRemove>(m: Map<Seq<char>, Seq<T>>, id: Seq<char>) -> bool {
    forall|k: Seq<char>, j: int| m.contains_key(k) && 0 <= j < m[k].len() ==> #[trigger] m[k][j].spec_id() != id
}

/// A connection with an id no queue holds, that joins a queue and then
/// leaves, leaves the queues as they were, but for an empty queue under its
/// key where there was none.
pub proof fn lemma_register_then_leave<T: IRemove>(m: Map<Seq<char>, Seq<T>>, key: Seq<char>, item: T)
    requires
        id_unused(m, item.spec_id()),
    ensures
        without_connection(with_registered(m, key, item), item.spec_id()) == if m.contains_key(key) {
            m
        } else {
            m.insert(key, Seq::empty())
        },
{
    let id = item.spec_id();
    let r = without_connection(with_registered(m, key, item), id);
    let expected = if m.contains_key(key) { m } else { m.insert(key, Seq::<T>::empty()) };
    assert forall|k: Seq<char>| #[trigger] r.contains_key(k) implies r[k] == expected[k] by {
        if k == key {
            let q = if m.contains_key(key) { m[key] } else { Seq::<T>::empty() };
            let pushed = q.push(item);
            assert forall|j: int| 0 <= j < q.len() implies #[trigger] pushed[j].spec_id() != id by {
                assert(pushed[j] == m[key][j]);
            }
            lemma_remove_first_at(pushed, id, q.len() as int);
            assert(pushed.remove(q.len() as int) =~= q);
            if !m.contains_key(key) {
                assert(seq![item] =~= Seq::<T>::empty().push(item));
            }
        } else {
            assert forall|j: int| 0 <= j < m[k].len() implies #[trigger] m[k][j].spec_id() != id by {}
            lemma_remove_first_absent(m[k], id);
        }
    }
    assert(r =~= expected);
}

/// The map from key to queue that a run of `(key, queue)` pairs stands for.
pub open spec fn queues_map<T>(s: Seq<(Seq<char>, Seq<T>)>) -> Map<Seq<char>, Seq<T>>
    decreases s.len(),
{
    if s.len() == 0 {
        Map::empty()
    } else {
        queues_map(s.drop_last()).insert(s.last().0, s.last().1)
    }
}

/// The keys of a run of `(key, queue)` pairs are distinct.
pub open spec fn distinct_keys<T>(s: Seq<(Seq<char>, Seq<T>)>) -> bool {
    forall|i: int, j: int| 0 <= i < s.len() && 0 <= j < s.len() && i != j ==> #[trigger] s[i].0 != #[trigger] s[j].0
}

proof fn lemma_queues_map_dom<T>(s: Seq<(Seq<char>, Seq<T>)>, k: Seq<char>)
    ensures
        queues_map(s).contains_key(k) <==> exists|i: int| 0 <= i < s.len() && #[trigger] s[i].0 == k,
    decreases s.len(),
{
    if s.len() > 0 {
        lemma_queues_map_dom(s.drop_last(), k);
        if exists|i: int| 0 <= i < s.len() && #[trigger] s[i].0 == k {
            let i = choose|i: int| 0 <= i < s.len() && #[trigger] s[i].0 == k;
            if i < s.len() - 1 {
                assert(s.drop_last()[i].0 == k);
            }
        }
        if exists|i: int| 0 <= i < s.drop_last().len() && #[trigger] s.drop_last()[i].0 == k {
            let i = choose|i: int| 0 <= i < s.drop_last().len() && #[trigger] s.drop_last()[i].0 == k;
            assert(s[i].0 == k);
        }
    }
}

proof fn lemma_queues_map_value<T>(s: Seq<(Seq<char>, Seq<T>)>, i: int)
    requires
        distinct_keys(s),
        0 <= i < s.len(),
    ensures
        queues_map(s).contains_key(s[i].0),
        queues_map(s)[s[i].0] == s[i].1,
    decreases s.len(),
{
    if i < s.len() - 1 {
        let d = s.drop_last();
        assert(distinct_keys(d)) by {
            assert forall|a: int, b: int| 0 <= a < d.len() && 0 <= b < d.len() && a != b implies #[trigger] d[a].0 != #[trigger] d[b].0 by {
                assert(d[a] == s[a] && d[b] == s[b]);
            }
        }
        lemma_queues_map_value(d, i);
        assert(d[i] == s[i]);
        assert(s[i].0 != s[s.len() - 1].0);
    }
}

proof fn lemma_queues_map_update<T>(before: Seq<(Seq<char>, Seq<T>)>, i: int, v: Seq<T>)
    requires
        distinct_keys(before),
        0 <= i < before.len(),
    ensures
        distinct_keys(before.update(i, (before[i].0, v))),
        queues_map(before.update(i, (before[i].0, v))) == queues_map(before).insert(before[i].0, v),
{
    let after = before.update(i, (before[i].0, v));
    let key = before[i].0;
    assert(distinct_keys(after)) by {
        assert forall|a: int, b: int| 0 <= a < after.len() && 0 <= b < after.len() && a != b implies #[trigger] after[a].0 != #[trigger] after[b].0 by {
            assert(after[a].0 == before[a].0 && after[b].0 == before[b].0);
        }
    }
    lemma_queues_map_value(before, i);
    assert forall|k: Seq<char>| #[trigger] queues_map(after).contains_key(k) <==> queues_map(before).insert(key, v).contains_key(k) by {
        lemma_queues_map_dom(after, k);
        lemma_queues_map_dom(before, k);
        if exists|j: int| 0 <= j < before.len() && #[trigger] before[j].0 == k {
            let j = choose|j: int| 0 <= j < before.len() && #[trigger] before[j].0 == k;
            assert(after[j].0 == k);
        }
        if exists|j: int| 0 <= j < after.len() && #[trigger] after[j].0 == k {
            let j = choose|j: int| 0 <= j < after.len() && #[trigger] after[j].0 == k;
            assert(before[j].0 == k);
        }
    }
    assert forall|k: Seq<char>| #[trigger] queues_map(after).contains_key(k) implies queues_map(after)[k] == queues_map(before).insert(key, v)[k] by {
        lemma_queues_map_dom(after, k);
        let j = choose|j: int| 0 <= j < after.len() && #[trigger] after[j].0 == k;
        lemma_queues_map_value(after, j);
        if j != i {
            lemma_queues_map_value(before, j);
        }
    }
    assert(queues_map(after) =~= queues_map(before).insert(key, v));
}

impl<T> KeyedEntries<T> {
    /// The entries as `(key, queue)` pairs of plain values.
    spec fn pairs(&self) -> Seq<(Seq<char>, Seq<T>)> {
        self.entries@.map_values(|e: (String, Vec<T>)| (e.0@, e.1@))
    }

    /// No two entries have the same key.
    spec fn wf(&self) -> bool {
        distinct_keys(self.pairs())
    }

    /// The queue kept under each key.
    spec fn queues(&self) -> Map<Seq<char>, Seq<T>> {
        queues_map(self.pairs())
    }

    /// No queues.
    fn new() -> (res: Self)
        ensures
            res.wf(),
            res.queues() == Map::<Seq<char>, Seq<T>>::empty(),
            res.pairs() == Seq::<(Seq<char>, Seq<T>)>::empty(),
    {
        let res = KeyedEntries { entries: Vec::new() };
        assert(res.pairs() =~= Seq::<(Seq<char>, Seq<T>)>::empty());
        res
    }

    /// The position of the entry with key `key`, if there is one.
    fn find(&self, key: &str) -> (res: Option<usize>)
        requires
            self.wf(),
        ensures
            match res {
                Some(i) => i < self.entries@.len() && self.pairs()[i as int].0 == key@,
                None => !self.queues().contains_key(key@),
            },
    {
        let mut i: usize = 0;
        while i < self.entries.len()
            invariant
                i <= self.entries@.len(),
                forall|j: int| 0 <= j < i ==> #[trigger] self.pairs()[j].0 != key@,
            decreases self.entries@.len() - i,
        {
            if str_eq(self.entries[i].0.as_str(), key) {
                return Some(i);
            }
            i = i + 1;
        }
        proof { lemma_queues_map_dom(self.pairs(), key@); }
        None
    }

    /// Adds `item` at the end of the queue under `key`, starting that queue
    /// where there is none.
    fn register(&mut self, key: String, item: T)
        requires
            old(self).wf(),
        ensures
            final(self).wf(),
            final(self).queues() == with_registered(old(self).queues(), key@, item),
    {
        let ghost before = self.pairs();
        match self.find(key.as_str()) {
            Some(i) => {
                let (k, mut queue) = self.entries.remove(i);
                queue.push(item);
                self.entries.insert(i, (k, queue));
                proof {
                    assert(self.pairs() =~= before.update(i as int, (before[i as int].0, before[i as int].1.push(item))));
                    lemma_queues_map_update(before, i as int, before[i as int].1.push(item));
                    lemma_queues_map_value(before, i as int);
                }
            },
            None => {
                let mut queue: Vec<T> = Vec::new();
                queue.push(item);
                self.entries.push((key, queue));
                proof {
                    let after = self.pairs();
                    assert(after =~= before.push((key@, seq![item])));
                    assert(after.drop_last() =~= before);
                    lemma_queues_map_dom(before, key@);
                    assert(distinct_keys(after)) by {
                        assert forall|a: int, b: int| 0 <= a < after.len() && 0 <= b < after.len() && a != b implies #[trigger] after[a].0 != #[trigger] after[b].0 by {
                            if a < before.len() && b < before.len() {
                                assert(after[a].0 == before[a].0 && after[b].0 == before[b].0);
                            } else if a < before.len() {
                                assert(after[a].0 == before[a].0);
                            } else {
                                assert(after[b].0 == before[b].0);
                            }
                        }
                    }
                }
            },
        }
    }

    /// Drops the queue under `key`, where there is one.
    fn remove_key(&mut self, key: &str)
        requires
            old(self).wf(),
        ensures
            final(self).wf(),
            final(self).queues() == old(self).queues().remove(key@),
    {
        let ghost before = self.pairs();
        match self.find(key) {
            Some(i) => {
                self.entries.remove(i);
                proof {
                    let after = self.pairs();
                    assert(after =~= before.remove(i as int));
                    assert(distinct_keys(after)) by {
                        assert forall|a: int, b: int| 0 <= a < after.len() && 0 <= b < after.len() && a != b implies #[trigger] after[a].0 != #[trigger] after[b].0 by {
                            let sa = if a < i { a } else { a + 1 };
                            let sb = if b < i { b } else { b + 1 };
                            assert(after[a] == before[sa] && after[b] == before[sb]);
                        }
                    }
                    assert forall|k: Seq<char>| #[trigger] self.queues().contains_key(k) <==> old(self).queues().remove(key@).contains_key(k) by {
                        lemma_queues_map_dom(after, k);
                        lemma_queues_map_dom(before, k);
                        if exists|j: int| 0 <= j < before.len() && #[trigger] before[j].0 == k {
                            let j = choose|j: int| 0 <= j < before.len() && #[trigger] before[j].0 == k;
                            if j != i {
                                let aj = if j < i { j } else { j - 1 };
                                assert(after[aj].0 == k);
                            }
                        }
                        if exists|j: int| 0 <= j < after.len() && #[trigger] after[j].0 == k {
                            let j = choose|j: int| 0 <= j < after.len() && #[trigger] after[j].0 == k;
                            let sj = if j < i { j } else { j + 1 };
                            assert(before[sj].0 == k);
                            assert(sj != i);
                        }
                    }
                    assert forall|k: Seq<char>| #[trigger] self.queues().contains_key(k) implies self.queues()[k] == old(self).queues().remove(key@)[k] by {
                        lemma_queues_map_dom(after, k);
                        let j = choose|j: int| 0 <= j < after.len() && #[trigger] after[j].0 == k;
                        lemma_queues_map_value(after, j);
                        let sj = if j < i { j } else { j + 1 };
                        lemma_queues_map_value(before, sj);
                    }
                    assert(self.queues() =~= old(self).queues().remove(key@));
                }
            },
            None => {
                assert(self.queues() =~= old(self).queues().remove(key@));
            },
        }
    }
}

impl<T: IRemove> KeyedEntries<T> {
    /// Removes, from every queue, the first entry whose id is `id`.
    fn remove_connection(&mut self, id: &str)
        requires
            old(self).wf(),
        ensures
            final(self).wf(),
            final(self).queues() == without_connection(old(self).queues(), id@),
    {
        let ghost start = self.pairs();
        let mut i: usize = 0;
        while i < self.entries.len()
            invariant
                i <= self.entries@.len(),
                self.entries@.len() == start.len(),
                distinct_keys(start),
                self.wf(),
                forall|j: int| 0 <= j < start.len() ==> #[trigger] self.pairs()[j].0 == start[j].0,
                forall|j: int| 0 <= j < i ==> #[trigger] self.pairs()[j].1 == remove_first(start[j].1, id@),
                forall|j: int| i <= j < start.len() ==> #[trigger] self.pairs()[j].1 == start[j].1,
            decreases start.len() - i,
        {
            let ghost before = self.pairs();
            let (k, mut queue) = self.entries.remove(i);
            remove_first_with_id(&mut queue, id);
            self.entries.insert(i, (k, queue));
            proof {
                assert(self.pairs() =~= before.update(i as int, (before[i as int].0, remove_first(before[i as int].1, id@))));
                lemma_queues_map_update(before, i as int, remove_first(before[i as int].1, id@));
            }
            i = i + 1;
        }
        proof {
            let after = self.pairs();
            assert forall|k: Seq<char>| #[trigger] self.queues().contains_key(k) <==> old(self).queues().contains_key(k) by {
                lemma_queues_map_dom(after, k);
                lemma_queues_map_dom(start, k);
                if exists|j: int| 0 <= j < start.len() && #[trigger] start[j].0 == k {
                    let j = choose|j: int| 0 <= j < start.len() && #[trigger] start[j].0 == k;
                    assert(after[j].0 == k);
                }
                if exists|j: int| 0 <= j < after.len() && #[trigger] after[j].0 == k {
                    let j = choose|j: int| 0 <= j < after.len() && #[trigger] after[j].0 == k;
                    assert(start[j].0 == k);
                }
            }
            assert(self.queues().dom() =~= old(self).queues().dom());
            assert forall|k: Seq<char>| #[trigger] self.queues().contains_key(k) implies self.queues()[k] == remove_first(old(self).queues()[k], id@) by {
                lemma_queues_map_dom(after, k);
                let j = choose|j: int| 0 <= j < after.len() && #[trigger] after[j].0 == k;
                lemma_queues_map_value(after, j);
                lemma_queues_map_value(start, j);
            }
            assert(self.queues() =~= without_connection(old(self).queues(), id@));
        }
    }

    /// Removes from the queue under `key`, for each id of `rmIds` in turn,
    /// the first entry with that id.
    #[allow(non_snake_case)]
    fn remove_items(&mut self, key: &str, rmIds: &Vec<String>)
        requires
            old(self).wf(),
        ensures
            final(self).wf(),
            final(self).queues() == if old(self).queues().contains_key(key@) {
                old(self).queues().insert(key@, remove_ids(old(self).queues()[key@], string_views(rmIds@)))
            } else {
                old(self).queues()
            },
    {
        let ghost before = self.pairs();
        match self.find(key) {
            Some(i) => {
                let (k, mut queue) = self.entries.remove(i);
                removeItemsFromSet(rmIds, &mut queue);
                self.entries.insert(i, (k, queue));
                proof {
                    let v = remove_ids(before[i as int].1, string_views(rmIds@));
                    assert(self.pairs() =~= before.update(i as int, (before[i as int].0, v)));
                    lemma_queues_map_update(before, i as int, v);
                    lemma_queues_map_value(before, i as int);
                }
            },
            None => {},
        }
    }

    /// The ids of the entries queued under `key`, in order, or `None` where
    /// there is no queue under `key`.
    fn ids_of(&self, key: &str) -> (res: Option<Vec<String>>)
        requires
            self.wf(),
        ensures
            match res {
                Some(ids) => self.queues().contains_key(key@) && string_views(ids@)
                    == ids_in(self.queues()[key@]),
                None => !self.queues().contains_key(key@),
            },
    {
        match self.find(key) {
            Some(i) => {
                proof { lemma_queues_map_value(self.pairs(), i as int); }
                let queue = &self.entries[i].1;
                let mut ids: Vec<String> = Vec::new();
                let mut j: usize = 0;
                while j < queue.len()
                    invariant
                        j <= queue@.len(),
                        string_views(ids@) == ids_in(queue@.subrange(0, j as int)),
                    decreases queue@.len() - j,
                {
                    let ghost prev = ids@;
                    let id = String::from_str(queue[j].id());
                    ids.push(id);
                    proof {
                        assert(ids@ == prev.push(id));
                        assert(id@ == queue@[j as int].spec_id());
                        assert(queue@.subrange(0, j + 1) =~= queue@.subrange(0, j as int).push(queue@[j as int]));
                        let a = string_views(ids@);
                        let b = ids_in(queue@.subrange(0, j + 1));
                        assert(string_views(prev).len() == prev.len());
                        assert(ids_in(queue@.subrange(0, j as int)).len() == j);
                        assert(prev.len() == j);
                        assert(a.len() == j + 1);
                        assert(b.len() == j + 1);
                        assert forall|t: int| 0 <= t < a.len() implies a[t] == b[t] by {
                            if t < j {
                                assert(a[t] == string_views(prev)[t]);
                                assert(queue@.subrange(0, j + 1)[t] == queue@.subrange(0, j as int)[t]);
                            }
                        }
                    }
                    j = j + 1;
                    assert(string_views(ids@) =~= ids_in(queue@.subrange(0, j as int)));
                }
                assert(queue@.subrange(0, queue@.len() as int) =~= queue@);
                Some(ids)
            },
            None => None,
        }
    }
}

/// Connection entries kept in queues under text keys, one queue per key.
pub struct CQueues<T> {
    inner: KeyedEntries<T>,
}

impl<T> CQueues<T> {
    /// No two entries have the same key.
    #[verifier::type_invariant]
    spec fn keys_distinct(&self) -> bool {
        self.inner.wf()
    }

    /// The queues as `(key, queue)` pairs of plain values, in the order in
    /// which their keys were first registered.
    pub closed spec fn pairs(&self) -> Seq<(Seq<char>, Seq<T>)> {
        self.inner.pairs()
    }

    /// The queue kept under each key.
    pub open spec fn queues(&self) -> Map<Seq<char>, Seq<T>> {
        queues_map(self.pairs())
    }

    /// No queues.
    pub fn new() -> (res: Self)
        ensures
            res.queues() == Map::<Seq<char>, Seq<T>>::empty(),
            res.pairs() == Seq::<(Seq<char>, Seq<T>)>::empty(),
    {
        let inner = KeyedEntries::new();
        CQueues { inner }
    }

    /// The number of queues.
    pub fn len(&self) -> (res: usize)
        ensures
            res == self.pairs().len(),
    {
        self.inner.entries.len()
    }

    /// The key of the queue at position `i`.
    pub fn key_at(&self, i: usize) -> (res: &String)
        requires
            i < self.pairs().len(),
        ensures
            res@ == self.pairs()[i as int].0,
    {
        &self.inner.entries[i].0
    }

    /// The queue at position `i`.
    pub fn queue_at(&self, i: usize) -> (res: &Vec<T>)
        requires
            i < self.pairs().len(),
        ensures
            res@ == self.pairs()[i as int].1,
    {
        &self.inner.entries[i].1
    }

    /// Adds `item` at the end of the queue under `key`, starting that queue
    /// where there is none.
    pub fn register(&mut self, key: String, item: T)
        ensures
            final(self).queues() == with_registered(old(self).queues(), key@, item),
    {
        proof { use_type_invariant(&*self); }
        let mut inner = KeyedEntries::new();
        std::mem::swap(&mut inner, &mut self.inner);
        inner.register(key, item);
        self.inner = inner;
    }

    /// Drops the queue under `key`, where there is one.
    pub fn remove_key(&mut self, key: &str)
        ensures
            final(self).queues() == old(self).queues().remove(key@),
    {
        proof { use_type_invariant(&*self); }
        let mut inner = KeyedEntries::new();
        std::mem::swap(&mut inner, &mut self.inner);
        inner.remove_key(key);
        self.inner = inner;
    }
}

impl<T: IRemove> CQueues<T> {
    /// Removes, from every queue, the first entry whose id is `id`.
    pub fn remove_connection(&mut self, id: &str)
        ensures
            final(self).queues() == without_connection(old(self).queues(), id@),
    {
        proof { use_type_invariant(&*self); }
        let mut inner = KeyedEntries::new();
        std::mem::swap(&mut inner, &mut self.inner);
        inner.remove_connection(id);
        self.inner = inner;
    }

    /// Removes from the queue under `key`, for each id of `rmIds` in turn,
    /// the first entry with that id.
    #[allow(non_snake_case)]
    pub fn remove_items(&mut self, key: &str, rmIds: &Vec<String>)
        ensures
            final(self).queues() == if old(self).queues().contains_key(key@) {
                old(self).queues().insert(key@, remove_ids(old(self).queues()[key@], string_views(rmIds@)))
            } else {
                old(self).queues()
            },
    {
        proof { use_type_invariant(&*self); }
        let mut inner = KeyedEntries::new();
        std::mem::swap(&mut inner, &mut self.inner);
        inner.remove_items(key, rmIds);
        self.inner = inner;
    }

    /// The ids of the entries queued under `key`, in order, or `None` where
    /// there is no queue under `key`.
    pub fn ids_of(&self, key: &str) -> (res: Option<Vec<String>>)
        ensures
            match res {
                Some(ids) => self.queues().contains_key(key@) && string_views(ids@)
                    == ids_in(self.queues()[key@]),
                None => !self.queues().contains_key(key@),
            },
    {
        proof { use_type_invariant(self); }
        self.inner.ids_of(key)
    }
}

} // verus!
