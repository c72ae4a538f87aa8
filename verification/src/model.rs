//! The mathematical model of the notification store: records as ghost values,
//! the map a sequence of records denotes, and the split of a map into its due
//! and pending parts at a given time.

use vstd::prelude::*;

verus! {

/// The image of one scheduled notification: its caller-assigned identifier,
/// its text, the absolute time (milliseconds since the Unix epoch, UTC) at
/// which it becomes due, and its optional opaque payload.
pub ghost struct Record {
    pub id: i32,
    pub title: Seq<char>,
    pub body: Seq<char>,
    pub schedule_at: i64,
    pub extra: Option<Seq<char>>,
}

/// The ids of the records of `s` are pairwise distinct.
pub open spec fn unique_ids(s: Seq<Record>) -> bool {
    forall|i: int, j: int|
        #![trigger s[i].id, s[j].id]
        0 <= i < j < s.len() ==> s[i].id != s[j].id
}

/// The finite map from id to record that a sequence of records denotes; of two
/// records with the same id, the later one wins.
pub open spec fn map_of(s: Seq<Record>) -> Map<i32, Record>
    decreases s.len(),
{
    if s.len() == 0 {
        Map::empty()
    } else {
        map_of(s.drop_last()).insert(s.last().id, s.last())
    }
}

/// The records of `m` still pending at time `now`: scheduled strictly later.
pub open spec fn pending_part(m: Map<i32, Record>, now: i64) -> Map<i32, Record> {
    Map::new(|k: i32| m.contains_key(k) && m[k].schedule_at > now, |k: i32| m[k])
}

/// The records of `m` due at time `now`: scheduled at or before it.
pub open spec fn due_part(m: Map<i32, Record>, now: i64) -> Map<i32, Record> {
    Map::new(|k: i32| m.contains_key(k) && m[k].schedule_at <= now, |k: i32| m[k])
}

/// `s` lists exactly the records of `m`, each one once, in some order.
pub open spec fn listing_of(s: Seq<Record>, m: Map<i32, Record>) -> bool {
    &&& forall|i: int|
        0 <= i < s.len() ==> m.contains_key(#[trigger] s[i].id) && m[s[i].id] == s[i]
    &&& forall|k: i32| #[trigger] m.contains_key(k)
        ==> exists|i: int| #![auto] 0 <= i < s.len() && s[i].id == k
    &&& unique_ids(s)
}

/// `m` with the records whose ids occur in `ids` removed.
pub open spec fn without_ids(m: Map<i32, Record>, ids: Seq<i32>) -> Map<i32, Record> {
    Map::new(|k: i32| m.contains_key(k) && !ids.contains(k), |k: i32| m[k])
}

/// An id is in the map of a sequence exactly when some record of the sequence
/// carries it.
pub proof fn lemma_map_of_contains(s: Seq<Record>, k: i32)
    ensures
        map_of(s).contains_key(k) <==> exists|i: int| #![auto] 0 <= i < s.len() && s[i].id == k,
    decreases s.len(),
{
    if s.len() > 0 {
        lemma_map_of_contains(s.drop_last(), k);
        if s.last().id == k {
            assert(s[s.len() - 1].id == k);
        } else {
            if exists|i: int| #![auto] 0 <= i < s.len() && s[i].id == k {
                let i = choose|i: int| #![auto] 0 <= i < s.len() && s[i].id == k;
                assert(s.drop_last()[i].id == k);
            }
            if exists|i: int| #![auto] 0 <= i < s.drop_last().len() && s.drop_last()[i].id == k {
                let i = choose|i: int| #![auto]
                    0 <= i < s.drop_last().len() && s.drop_last()[i].id == k;
                assert(s[i].id == k);
            }
        }
    }
}

/// Dropping the last record keeps the remaining ids pairwise distinct.
pub proof fn lemma_unique_drop_last(s: Seq<Record>)
    requires
        s.len() > 0,
        unique_ids(s),
    ensures
        unique_ids(s.drop_last()),
{
    assert forall|i: int, j: int|
        #![trigger s.drop_last()[i].id, s.drop_last()[j].id]
        0 <= i < j < s.drop_last().len() implies s.drop_last()[i].id != s.drop_last()[j].id by {
        assert(s.drop_last()[i] == s[i]);
        assert(s.drop_last()[j] == s[j]);
    }
}

/// With pairwise distinct ids, the map of a sequence sends each record's id to
/// that record.
pub proof fn lemma_map_of_index(s: Seq<Record>, i: int)
    requires
        unique_ids(s),
        0 <= i < s.len(),
    ensures
        map_of(s).contains_key(s[i].id),
        map_of(s)[s[i].id] == s[i],
    decreases s.len(),
{
    if i < s.len() - 1 {
        lemma_unique_drop_last(s);
        lemma_map_of_index(s.drop_last(), i);
        assert(s.drop_last()[i] == s[i]);
        assert(s[i].id != s.last().id);
    }
}

/// Appending a record inserts it into the map of the sequence.
pub proof fn lemma_map_of_push(s: Seq<Record>, r: Record)
    ensures
        map_of(s.push(r)) == map_of(s).insert(r.id, r),
{
    assert(s.push(r).drop_last() =~= s);
    assert(s.push(r).last() == r);
}

/// Pushing a record whose id is fresh keeps the ids pairwise distinct.
pub proof fn lemma_unique_push(s: Seq<Record>, r: Record)
    requires
        unique_ids(s),
        forall|i: int| 0 <= i < s.len() ==> (#[trigger] s[i].id) != r.id,
    ensures
        unique_ids(s.push(r)),
{
    assert forall|i: int, j: int|
        #![trigger s.push(r)[i].id, s.push(r)[j].id]
        0 <= i < j < s.push(r).len() implies s.push(r)[i].id != s.push(r)[j].id by {
        assert(s.push(r)[i] == s[i]);
        if j < s.len() {
            assert(s.push(r)[j] == s[j]);
        } else {
            assert(s.push(r)[j] == r);
        }
    }
}

/// Removing the record at one index keeps the ids pairwise distinct.
pub proof fn lemma_unique_remove(s: Seq<Record>, i: int)
    requires
        unique_ids(s),
        0 <= i < s.len(),
    ensures
        unique_ids(s.remove(i)),
{
    assert forall|p: int, q: int|
        #![trigger s.remove(i)[p].id, s.remove(i)[q].id]
        0 <= p < q < s.remove(i).len() implies s.remove(i)[p].id != s.remove(i)[q].id by {
        let p0: int = if p < i { p } else { p + 1 };
        let q0: int = if q < i { q } else { q + 1 };
        assert(s.remove(i)[p] == s[p0]);
        assert(s.remove(i)[q] == s[q0]);
    }
}

/// With pairwise distinct ids, removing the record at one index removes its id
/// from the map of the sequence.
pub proof fn lemma_map_of_remove(s: Seq<Record>, i: int)
    requires
        unique_ids(s),
        0 <= i < s.len(),
    ensures
        map_of(s.remove(i)) == map_of(s).remove(s[i].id),
    decreases s.len(),
{
    lemma_unique_drop_last(s);
    if i == s.len() - 1 {
        assert(s.remove(i) =~= s.drop_last());
        lemma_map_of_contains(s.drop_last(), s[i].id);
        assert(!map_of(s.drop_last()).contains_key(s[i].id)) by {
            if exists|j: int| #![auto]
                0 <= j < s.drop_last().len() && s.drop_last()[j].id == s[i].id {
                let j = choose|j: int| #![auto]
                    0 <= j < s.drop_last().len() && s.drop_last()[j].id == s[i].id;
                assert(s[j].id == s[i].id);
            }
        }
        assert(map_of(s.drop_last()).insert(s[i].id, s[i]).remove(s[i].id)
            =~= map_of(s.drop_last()));
    } else {
        let t = s.remove(i);
        assert(t.drop_last() =~= s.drop_last().remove(i)) by {
            assert forall|p: int| 0 <= p < t.drop_last().len()
                implies t.drop_last()[p] == s.drop_last().remove(i)[p] by {
                if p < i {
                    assert(t.drop_last()[p] == s[p]);
                } else {
                    assert(t.drop_last()[p] == s[p + 1]);
                }
            }
        }
        assert(t.last() == s.last());
        lemma_map_of_remove(s.drop_last(), i);
        assert(s.drop_last()[i] == s[i]);
        assert(s[i].id != s.last().id);
        assert(map_of(s.drop_last()).remove(s[i].id).insert(s.last().id, s.last())
            =~= map_of(s.drop_last()).insert(s.last().id, s.last()).remove(s[i].id));
    }
}

/// The records of `s` that the flag selects, in order: the due ones
/// (scheduled at or before `now`) when `due` is true, the pending ones
/// (scheduled strictly later) otherwise.
pub open spec fn filtered(s: Seq<Record>, now: i64, due: bool) -> Seq<Record>
    decreases s.len(),
{
    if s.len() == 0 {
        Seq::empty()
    } else if (due && s.last().schedule_at <= now) || (!due && s.last().schedule_at > now) {
        filtered(s.drop_last(), now, due).push(s.last())
    } else {
        filtered(s.drop_last(), now, due)
    }
}

/// The part of `m` that the flag selects.
pub open spec fn part_of(m: Map<i32, Record>, now: i64, due: bool) -> Map<i32, Record> {
    if due {
        due_part(m, now)
    } else {
        pending_part(m, now)
    }
}

/// The ids of a sequence of records, in order.
pub open spec fn ids_of(s: Seq<Record>) -> Seq<i32> {
    s.map_values(|r: Record| r.id)
}

/// The selected records of a sequence with pairwise distinct ids list exactly
/// the selected part of the map the sequence denotes.
pub proof fn lemma_filtered_listing(s: Seq<Record>, now: i64, due: bool)
    requires
        unique_ids(s),
    ensures
        listing_of(filtered(s, now, due), part_of(map_of(s), now, due)),
    decreases s.len(),
{
    if s.len() == 0 {
        assert(part_of(map_of(s), now, due) =~= Map::<i32, Record>::empty());
    } else {
        let s1 = s.drop_last();
        let r = s.last();
        lemma_unique_drop_last(s);
        lemma_filtered_listing(s1, now, due);
        let m1 = map_of(s1);
        let f1 = filtered(s1, now, due);
        let f = filtered(s, now, due);
        let p1 = part_of(m1, now, due);
        let p = part_of(map_of(s), now, due);
        lemma_map_of_contains(s1, r.id);
        assert(!m1.contains_key(r.id)) by {
            if exists|i: int| #![auto] 0 <= i < s1.len() && s1[i].id == r.id {
                let i = choose|i: int| #![auto] 0 <= i < s1.len() && s1[i].id == r.id;
                assert(s[i].id == s[s.len() - 1].id);
            }
        }
        if (due && r.schedule_at <= now) || (!due && r.schedule_at > now) {
            assert(f == f1.push(r));
            assert(p =~= p1.insert(r.id, r));
            assert forall|t: int| 0 <= t < f.len()
                implies p.contains_key(#[trigger] f[t].id) && p[f[t].id] == f[t] by {
                if t < f1.len() {
                    assert(f[t] == f1[t]);
                    assert(p1.contains_key(f1[t].id));
                    assert(m1.contains_key(f1[t].id));
                } else {
                    assert(f[t] == r);
                }
            }
            assert forall|k: i32| #[trigger] p.contains_key(k)
                implies exists|t: int| #![auto] 0 <= t < f.len() && f[t].id == k by {
                if k == r.id {
                    assert(f[f.len() - 1].id == k);
                } else {
                    assert(p1.contains_key(k));
                    let t = choose|t: int| #![auto] 0 <= t < f1.len() && f1[t].id == k;
                    assert(f[t].id == k);
                }
            }
            assert forall|t1: int, t2: int|
                #![trigger f[t1].id, f[t2].id]
                0 <= t1 < t2 < f.len() implies f[t1].id != f[t2].id by {
                assert(f[t1] == f1[t1]);
                assert(p1.contains_key(f1[t1].id));
                assert(m1.contains_key(f1[t1].id));
                if t2 < f1.len() {
                    assert(f[t2] == f1[t2]);
                } else {
                    assert(f[t2] == r);
                }
            }
        } else {
            assert(f == f1);
            assert(p =~= p1);
        }
    }
}

/// Membership in a sequence extended by one element.
pub proof fn lemma_contains_push(s: Seq<i32>, x: i32, k: i32)
    ensures
        s.push(x).contains(k) <==> (s.contains(k) || k == x),
{
    assert(s.push(x)[s.len() as int] == x);
    if s.contains(k) {
        let w = choose|w: int| 0 <= w < s.len() && s[w] == k;
        assert(s.push(x)[w] == k);
    }
    if s.push(x).contains(k) && k != x {
        let w = choose|w: int| 0 <= w < s.push(x).len() && s.push(x)[w] == k;
        assert(0 <= w < s.len());
        assert(s[w] == k);
    }
}

} // verus!
