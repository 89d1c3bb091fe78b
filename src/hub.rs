//! The subscriber table behind message fan-out: client identifiers mapped to
//! delivery endpoints, with registration, removal, and eviction of the
//! subscribers whose delivery failed.

use vstd::prelude::*;

verus! {

/// Registered clients in registration order, each identifier at most once.
pub struct Subscribers<E> {
    entries: Vec<(String, E)>,
}

/// No identifier occurs twice.
pub open spec fn unique_ids<E>(s: Seq<(Seq<char>, E)>) -> bool {
    forall|i: int, j: int| 0 <= i < s.len() && 0 <= j < s.len() && i != j ==> s[i].0 != s[j].0
}

/// Some entry of `s` is registered under `id`.
pub open spec fn has_id<E>(s: Seq<(Seq<char>, E)>, id: Seq<char>) -> bool {
    exists|i: int| 0 <= i < s.len() && #[trigger] s[i].0 == id
}

/// A position of `t` that holds an entry under `id`, when there is one.
pub open spec fn id_index<E>(t: Seq<(Seq<char>, E)>, id: Seq<char>) -> int {
    choose|i: int| 0 <= i < t.len() && #[trigger] t[i].0 == id
}

/// The table after registering `e` under `id`: an entry already under `id`
/// replaced in place, or a new entry at the end.
pub open spec fn registered<E>(t: Seq<(Seq<char>, E)>, id: Seq<char>, e: E) -> Seq<(Seq<char>, E)> {
    if has_id(t, id) {
        t.update(id_index(t, id), (id, e))
    } else {
        t.push((id, e))
    }
}

/// The entries of `s` whose delivery outcome in `ok` is a success, in order.
pub open spec fn kept<E>(s: Seq<(Seq<char>, E)>, ok: Seq<bool>) -> Seq<(Seq<char>, E)>
    decreases s.len(),
{
    if s.len() == 0 || ok.len() == 0 {
        Seq::empty()
    } else {
        let rest = kept(s.drop_last(), ok.drop_last());
        if ok.last() {
            rest.push(s.last())
        } else {
            rest
        }
    }
}

impl<E> View for Subscribers<E> {
    type V = Seq<(Seq<char>, E)>;

    closed spec fn view(&self) -> Seq<(Seq<char>, E)> {
        self.entries@.map_values(|p: (String, E)| (p.0@, p.1))
    }
}

impl<E> Subscribers<E> {
    /// An empty table.
    pub fn new() -> (r: Self)
        ensures
            r@ == Seq::<(Seq<char>, E)>::empty(),
    {
        let r = Subscribers { entries: Vec::new() };
        assert(r@ =~= Seq::<(Seq<char>, E)>::empty());
        r
    }

    /// Number of registered clients.
    pub fn len(&self) -> (r: usize)
        ensures
            r == self@.len(),
    {
        self.entries.len()
    }

    /// Identifier of the `i`-th registered client.
    pub fn id(&self, i: usize) -> (r: &String)
        requires
            i < self@.len(),
        ensures
            r@ == self@[i as int].0,
    {
        &self.entries[i].0
    }

    /// Delivery endpoint of the `i`-th registered client.
    pub fn endpoint(&self, i: usize) -> (r: &E)
        requires
            i < self@.len(),
        ensures
            *r == self@[i as int].1,
    {
        &self.entries[i].1
    }

    /// Position of the entry registered under `id`, if any.
    pub fn position(&self, id: &String) -> (r: Option<usize>)
        ensures
            r matches Some(k) ==> k < self@.len() && self@[k as int].0 == id@,
            r is None ==> !has_id(self@, id@),
    {
        let mut i: usize = 0;
        while i < self.entries.len()
            invariant
                i <= self@.len(),
                self@.len() == self.entries@.len(),
                forall|j: int| 0 <= j < i ==> self@[j].0 != id@,
            decreases self.entries@.len() - i,
        {
            if self.entries[i].0 == *id {
                return Some(i);
            }
            i = i + 1;
        }
        None
    }

    /// Stores `endpoint` under `id`, replacing the endpoint of an earlier
    /// registration under the same identifier in place.
    pub fn register(&mut self, id: String, endpoint: E)
        requires
            unique_ids(old(self)@),
        ensures
            final(self)@ == registered(old(self)@, id@, endpoint),
            unique_ids(final(self)@),
            !has_id(old(self)@, id@) ==> final(self)@ == old(self)@.push((id@, endpoint)),
            forall|k: int|
                0 <= k < old(self)@.len() && old(self)@[k].0 == id@ ==> final(self)@ == old(self)@.update(k, (id@, endpoint)),
            final(self)@.contains((id@, endpoint)),
            forall|k: int|
                0 <= k < old(self)@.len() && old(self)@[k].0 != id@ ==> final(self)@.contains(#[trigger] old(self)@[k]),
    {
        let ghost pre = self@;
        let ghost key = id@;
        match self.position(&id) {
            Some(k) => {
                self.entries.remove(k);
                self.entries.insert(k, (id, endpoint));
                assert(self@ =~= pre.update(k as int, (key, endpoint)));
                assert(has_id(pre, key));
                let ghost c = id_index(pre, key);
                assert(pre[c].0 == key);
                assert(c == k);
                assert(self@[k as int] == (key, endpoint));
                assert forall|j: int| 0 <= j < pre.len() && pre[j].0 != key implies self@.contains(#[trigger] pre[j]) by {
                    assert(self@[j] == pre[j]);
                }
            },
            None => {
                self.entries.push((id, endpoint));
                assert(self@ =~= pre.push((key, endpoint)));
                assert(self@[pre.len() as int] == (key, endpoint));
                assert forall|j: int| 0 <= j < pre.len() && pre[j].0 != key implies self@.contains(#[trigger] pre[j]) by {
                    assert(self@[j] == pre[j]);
                }
            },
        }
    }

    /// Removes the entry registered under `id`; nothing happens when there is none.
    pub fn unregister(&mut self, id: &String)
        requires
            unique_ids(old(self)@),
        ensures
            unique_ids(final(self)@),
            !has_id(final(self)@, id@),
            !has_id(old(self)@, id@) ==> final(self)@ == old(self)@,
            forall|k: int|
                0 <= k < old(self)@.len() && old(self)@[k].0 == id@ ==> final(self)@ == old(self)@.remove(k),
    {
        let ghost pre = self@;
        match self.position(id) {
            Some(k) => {
                self.entries.remove(k);
                assert(self@ =~= pre.remove(k as int));
                assert forall|j: int| 0 <= j < self@.len() implies #[trigger] self@[j].0 != id@ by {
                    if j < k {
                        assert(self@[j] == pre[j]);
                    } else {
                        assert(self@[j] == pre[j + 1]);
                    }
                }
            },
            None => {},
        }
    }

    /// Hands every registered endpoint, in order, to `deliver`, then drops
    /// the clients for which it reported failure. Returns the outcome of
    /// each delivery, by the position the client had before.
    pub fn deliver_all<F: Fn(&E) -> bool>(&mut self, deliver: F) -> (r: Vec<bool>)
        requires
            unique_ids(old(self)@),
            forall|e: &E| #[trigger] deliver.requires((e,)),
        ensures
            r@.len() == old(self)@.len(),
            forall|k: int| 0 <= k < r@.len() ==> deliver.ensures((&old(self)@[k].1,), #[trigger] r@[k]),
            final(self)@ == kept(old(self)@, r@),
            unique_ids(final(self)@),
            forall|k: int|
                0 <= k < old(self)@.len() && r@[k] ==> final(self)@.contains(#[trigger] old(self)@[k]),
            forall|k: int|
                0 <= k < old(self)@.len() && !r@[k] ==> !has_id(final(self)@, #[trigger] old(self)@[k].0),
    {
        let mut outcomes: Vec<bool> = Vec::new();
        let mut i: usize = 0;
        while i < self.entries.len()
            invariant
                self@.len() == self.entries@.len(),
                self@ == old(self)@,
                i <= self@.len(),
                outcomes@.len() == i,
                forall|e: &E| #[trigger] deliver.requires((e,)),
                forall|k: int| 0 <= k < i ==> deliver.ensures((&self@[k].1,), #[trigger] outcomes@[k]),
            decreases self.entries@.len() - i,
        {
            let ok = deliver(&self.entries[i].1);
            assert(self.entries@[i as int].1 == self@[i as int].1);
            outcomes.push(ok);
            i = i + 1;
        }
        self.retain_delivered(&outcomes);
        outcomes
    }

    /// Drops, after a fan-out, every client whose delivery failed:
    /// `delivered[i]` tells whether delivery to the `i`-th entry went
    /// through. The others stay, in their order.
    pub fn retain_delivered(&mut self, delivered: &Vec<bool>)
        requires
            unique_ids(old(self)@),
            delivered@.len() == old(self)@.len(),
        ensures
            final(self)@ == kept(old(self)@, delivered@),
            unique_ids(final(self)@),
            forall|k: int|
                0 <= k < old(self)@.len() && delivered@[k] ==> final(self)@.contains(#[trigger] old(self)@[k]),
            forall|k: int|
                0 <= k < old(self)@.len() && !delivered@[k] ==> !has_id(final(self)@, #[trigger] old(self)@[k].0),
    {
        let ghost pre = self@;
        let mut i: usize = 0;
        let mut j: usize = 0;
        while j < delivered.len()
            invariant
                pre.len() == delivered@.len(),
                j <= delivered@.len(),
                i <= j,
                self@.len() == self.entries@.len(),
                kept(pre.take(j as int), delivered@.take(j as int)).len() == i,
                self@ == kept(pre.take(j as int), delivered@.take(j as int)) + pre.skip(j as int),
            decreases delivered@.len() - j,
        {
            let ghost before = self@;
            let ghost prefix = kept(pre.take(j as int), delivered@.take(j as int));
            assert(pre.take(j + 1).drop_last() =~= pre.take(j as int));
            assert(delivered@.take(j + 1).drop_last() =~= delivered@.take(j as int));
            assert(before[i as int] == pre[j as int]);
            if delivered[j] {
                i = i + 1;
                assert(self@ =~= prefix.push(pre[j as int]) + pre.skip(j + 1));
            } else {
                self.entries.remove(i);
                assert(self@ =~= before.remove(i as int));
                assert(self@ =~= prefix + pre.skip(j + 1));
            }
            j = j + 1;
        }
        assert(pre.take(j as int) =~= pre);
        assert(delivered@.take(j as int) =~= delivered@);
        assert(self@ =~= kept(pre, delivered@));
        proof {
            lemma_kept(pre, delivered@);
        }
        assert forall|k: int| 0 <= k < pre.len() && !delivered@[k] implies !has_id(self@, #[trigger] pre[k].0) by {
            if has_id(self@, pre[k].0) {
                let m = choose|m: int| 0 <= m < self@.len() && #[trigger] self@[m].0 == pre[k].0;
                assert(delivered_entry(pre, delivered@, self@[m]));
                let n = choose|n: int| 0 <= n < pre.len() && delivered@[n] && pre[n] == self@[m];
                assert(n != k);
            }
        }
    }
}

/// `x` is an entry of `s` whose outcome in `ok` is a success.
pub open spec fn delivered_entry<E>(s: Seq<(Seq<char>, E)>, ok: Seq<bool>, x: (Seq<char>, E)) -> bool {
    exists|n: int| 0 <= n < s.len() && ok[n] && s[n] == x
}

/// What `kept` holds: no more entries than `s`, each one an entry of `s`
/// whose outcome is a success, every such entry, and no repeated identifier
/// when `s` has none.
pub proof fn lemma_kept<E>(s: Seq<(Seq<char>, E)>, ok: Seq<bool>)
    requires
        s.len() == ok.len(),
    ensures
        kept(s, ok).len() <= s.len(),
        forall|m: int| 0 <= m < kept(s, ok).len() ==> delivered_entry(s, ok, #[trigger] kept(s, ok)[m]),
        forall|n: int| 0 <= n < s.len() && ok[n] ==> kept(s, ok).contains(#[trigger] s[n]),
        unique_ids(s) ==> unique_ids(kept(s, ok)),
    decreases s.len(),
{
    if s.len() > 0 {
        let s0 = s.drop_last();
        let ok0 = ok.drop_last();
        lemma_kept(s0, ok0);
        let rest = kept(s0, ok0);
        let r = kept(s, ok);
        assert(r == if ok.last() { rest.push(s.last()) } else { rest });
        assert forall|m: int| 0 <= m < r.len() implies delivered_entry(s, ok, #[trigger] r[m]) by {
            if m < rest.len() {
                assert(r[m] == rest[m]);
                assert(delivered_entry(s0, ok0, rest[m]));
                let n = choose|n: int| 0 <= n < s0.len() && ok0[n] && s0[n] == rest[m];
                assert(s[n] == s0[n] && ok[n] == ok0[n]);
                assert(s[n] == r[m] && ok[n]);
            } else {
                assert(ok.last());
                assert(s[s.len() - 1] == r[m] && ok[s.len() - 1]);
            }
        }
        assert forall|n: int| 0 <= n < s.len() && ok[n] implies r.contains(#[trigger] s[n]) by {
            if n < s.len() - 1 {
                assert(s0[n] == s[n] && ok0[n]);
                assert(rest.contains(s0[n]));
                let m = choose|m: int| 0 <= m < rest.len() && rest[m] == s0[n];
                assert(r[m] == s[n]);
            } else {
                assert(r[r.len() - 1] == s[n]);
            }
        }
        if unique_ids(s) {
            assert(unique_ids(s0));
            assert forall|a: int, b: int| 0 <= a < r.len() && 0 <= b < r.len() && a != b implies r[a].0 != r[b].0 by {
                if a < rest.len() && b < rest.len() {
                } else if ok.last() {
                    let m = if a < rest.len() { a } else { b };
                    assert(m < rest.len());
                    assert(delivered_entry(s0, ok0, rest[m]));
                    let n = choose|n: int| 0 <= n < s0.len() && ok0[n] && s0[n] == rest[m];
                    assert(s[n] == rest[m]);
                    assert(n != s.len() - 1);
                }
            }
        }
    }
}

/// Registering puts the new entry in the table and keeps every entry under
/// another identifier.
pub proof fn lemma_registered<E>(t: Seq<(Seq<char>, E)>, id: Seq<char>, e: E)
    ensures
        registered(t, id, e).contains((id, e)),
        forall|k: int| 0 <= k < t.len() && t[k].0 != id ==> registered(t, id, e).contains(#[trigger] t[k]),
{
    let r = registered(t, id, e);
    if has_id(t, id) {
        let c = id_index(t, id);
        assert(0 <= c < t.len() && t[c].0 == id);
        assert(r[c] == (id, e));
        assert forall|k: int| 0 <= k < t.len() && t[k].0 != id implies r.contains(#[trigger] t[k]) by {
            assert(r[k] == t[k]);
        }
    } else {
        assert(r[t.len() as int] == (id, e));
        assert forall|k: int| 0 <= k < t.len() && t[k].0 != id implies r.contains(#[trigger] t[k]) by {
            assert(r[k] == t[k]);
        }
    }
}

/// After two clients register under different identifiers, both stand in
/// the table with their endpoints, so a fan-out hands a message to each,
/// whichever of them sent it.
pub proof fn lemma_two_registered<E>(t: Seq<(Seq<char>, E)>, a: Seq<char>, ea: E, b: Seq<char>, eb: E)
    requires
        a != b,
    ensures
        registered(registered(t, a, ea), b, eb).contains((a, ea)),
        registered(registered(t, a, ea), b, eb).contains((b, eb)),
{
    let t1 = registered(t, a, ea);
    lemma_registered(t, a, ea);
    lemma_registered(t1, b, eb);
    let k = choose|k: int| 0 <= k < t1.len() && t1[k] == (a, ea);
    assert(t1[k].0 != b);
}

/// A failed delivery evicts only the client it was meant for: after a
/// fan-out in which delivery to `t[b]` failed and delivery to `t[a]`
/// succeeded, `t[a]` keeps its entry and no entry under `t[b]`'s identifier
/// is left.
pub proof fn lemma_failure_evicts_only_its_client<E>(t: Seq<(Seq<char>, E)>, ok: Seq<bool>, a: int, b: int)
    requires
        unique_ids(t),
        ok.len() == t.len(),
        0 <= a < t.len(),
        0 <= b < t.len(),
        ok[a],
        !ok[b],
    ensures
        kept(t, ok).contains(t[a]),
        !has_id(kept(t, ok), t[b].0),
{
    lemma_kept(t, ok);
    let r = kept(t, ok);
    if has_id(r, t[b].0) {
        let m = choose|m: int| 0 <= m < r.len() && #[trigger] r[m].0 == t[b].0;
        assert(delivered_entry(t, ok, r[m]));
        let n = choose|n: int| 0 <= n < t.len() && ok[n] && t[n] == r[m];
        assert(n != b);
    }
}

} // verus!
