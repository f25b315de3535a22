//! The upstream fetches in flight, one per torrent at most, each with the
//! announces waiting for it to end.
use vstd::prelude::*;

verus! {

/// The model of a table: each torrent in flight (by its info-hash in hex)
/// with its waiters, in the order the fetches began.
pub type InflightView<W> = Seq<(Seq<char>, Seq<W>)>;

/// A fetch for `ih` is in flight.
pub open spec fn in_flight<W>(s: InflightView<W>, ih: Seq<char>) -> bool {
    exists|i: int| 0 <= i < s.len() && s[i].0 == ih
}

/// The position of `ih` in the table (meaningful when it is in flight).
pub open spec fn flight_index<W>(s: InflightView<W>, ih: Seq<char>) -> int {
    choose|i: int| 0 <= i < s.len() && s[i].0 == ih
}

/// The waiters of the fetch for `ih`, none when no fetch is in flight.
pub open spec fn waiters_of<W>(s: InflightView<W>, ih: Seq<char>) -> Seq<W> {
    if in_flight(s, ih) {
        s[flight_index(s, ih)].1
    } else {
        Seq::empty()
    }
}

/// No torrent is in flight twice.
pub open spec fn table_wf<W>(s: InflightView<W>) -> bool {
    forall|a: int, b: int| 0 <= a < b < s.len() ==> (#[trigger] s[a]).0 != (#[trigger] s[b]).0
}

/// The table after a fetch for `ih` begins: unchanged when one is already in
/// flight.
pub open spec fn table_begin<W>(s: InflightView<W>, ih: Seq<char>) -> InflightView<W> {
    if in_flight(s, ih) {
        s
    } else {
        s.push((ih, Seq::empty()))
    }
}

/// The table after `w` starts waiting for the fetch for `ih`: unchanged when
/// none is in flight.
pub open spec fn table_join<W>(s: InflightView<W>, ih: Seq<char>, w: W) -> InflightView<W> {
    if in_flight(s, ih) {
        let i = flight_index(s, ih);
        s.update(i, (ih, s[i].1.push(w)))
    } else {
        s
    }
}

/// The table after the fetch for `ih` ends.
pub open spec fn table_finish<W>(s: InflightView<W>, ih: Seq<char>) -> InflightView<W> {
    if in_flight(s, ih) {
        s.remove(flight_index(s, ih))
    } else {
        s
    }
}

/// In a well-formed table the entry for `ih` is found at its one position.
proof fn lemma_index_unique<W>(s: InflightView<W>, ih: Seq<char>, i: int)
    requires
        table_wf(s),
        0 <= i < s.len(),
        s[i].0 == ih,
    ensures
        in_flight(s, ih),
        flight_index(s, ih) == i,
{
    assert(in_flight(s, ih));
    let c = flight_index(s, ih);
    if c < i {
        assert(s[c].0 != s[i].0);
    } else if c > i {
        assert(s[i].0 != s[c].0);
    }
}

/// Beginning a fetch keeps the table well formed, and a second begin for the
/// same torrent changes nothing: at most one fetch per torrent is in flight.
pub proof fn lemma_begin_dedupes<W>(s: InflightView<W>, ih: Seq<char>)
    requires
        table_wf(s),
    ensures
        table_wf(table_begin(s, ih)),
        in_flight(table_begin(s, ih), ih),
        table_begin(table_begin(s, ih), ih) == table_begin(s, ih),
{
    let t = table_begin(s, ih);
    if !in_flight(s, ih) {
        assert(t[s.len() as int].0 == ih);
        assert forall|a: int, b: int| 0 <= a < b < t.len() implies (#[trigger] t[a]).0 != (
        #[trigger] t[b]).0 by {
            if b == s.len() {
                assert(t[a] == s[a]);
            } else {
                assert(t[a] == s[a] && t[b] == s[b]);
            }
        }
    }
}

/// A fetch that begins and ends with nobody waiting leaves the table as it
/// was, and hands back no waiter.
pub proof fn lemma_begin_then_finish<W>(s: InflightView<W>, ih: Seq<char>)
    requires
        table_wf(s),
        !in_flight(s, ih),
    ensures
        waiters_of(table_begin(s, ih), ih) == Seq::<W>::empty(),
        table_finish(table_begin(s, ih), ih) == s,
{
    let t = table_begin(s, ih);
    lemma_begin_dedupes(s, ih);
    lemma_index_unique(t, ih, s.len() as int);
    assert(t.remove(s.len() as int) =~= s);
}

/// Whoever joins a fetch in flight is handed back, after those who joined
/// before, when it ends; and then no fetch for the torrent is in flight.
pub proof fn lemma_join_then_finish<W>(s: InflightView<W>, ih: Seq<char>, w: W)
    requires
        table_wf(s),
        in_flight(s, ih),
    ensures
        table_wf(table_join(s, ih, w)),
        waiters_of(table_join(s, ih, w), ih) == waiters_of(s, ih).push(w),
        table_wf(table_finish(table_join(s, ih, w), ih)),
        !in_flight(table_finish(table_join(s, ih, w), ih), ih),
{
    let i = flight_index(s, ih);
    let t = table_join(s, ih, w);
    assert forall|a: int, b: int| 0 <= a < b < t.len() implies (#[trigger] t[a]).0 != (
    #[trigger] t[b]).0 by {
        assert(t[a].0 == s[a].0 && t[b].0 == s[b].0);
    }
    lemma_index_unique(t, ih, i);
    lemma_finish_wf(t, ih);
    let u = table_finish(t, ih);
    if in_flight(u, ih) {
        let k = flight_index(u, ih);
        if k < i {
            assert(u[k] == t[k]);
            assert(t[k].0 != t[i].0);
        } else {
            assert(u[k] == t[k + 1]);
            assert(t[i].0 != t[k + 1].0);
        }
    }
}

/// Ending a fetch keeps the table well formed.
pub proof fn lemma_finish_wf<W>(s: InflightView<W>, ih: Seq<char>)
    requires
        table_wf(s),
    ensures
        table_wf(table_finish(s, ih)),
{
    if in_flight(s, ih) {
        let i = flight_index(s, ih);
        let t = table_finish(s, ih);
        assert forall|a: int, b: int| 0 <= a < b < t.len() implies (#[trigger] t[a]).0 != (
        #[trigger] t[b]).0 by {
            let a0 = if a < i { a } else { a + 1 };
            let b0 = if b < i { b } else { b + 1 };
            assert(t[a] == s[a0] && t[b] == s[b0]);
        }
    }
}

/// Ending the fetch for one torrent leaves the fetches for the others, and
/// their waiters, as they were.
pub proof fn lemma_finish_keeps_others<W>(s: InflightView<W>, ih: Seq<char>, other: Seq<char>)
    requires
        table_wf(s),
        other != ih,
    ensures
        in_flight(table_finish(s, ih), other) == in_flight(s, other),
        waiters_of(table_finish(s, ih), other) == waiters_of(s, other),
{
    if in_flight(s, ih) {
        let i = flight_index(s, ih);
        let t = table_finish(s, ih);
        lemma_finish_wf(s, ih);
        if in_flight(s, other) {
            let j = flight_index(s, other);
            assert(j != i);
            let k = if j < i { j } else { j - 1 };
            assert(t[k] == s[j]);
            lemma_index_unique(t, other, k);
        }
        if in_flight(t, other) {
            let k = flight_index(t, other);
            let j = if k < i { k } else { k + 1 };
            assert(t[k] == s[j]);
        }
    }
}

/// The fetches in flight.
pub struct InflightTable<W> {
    entries: Vec<(String, Vec<W>)>,
}

impl<W> View for InflightTable<W> {
    type V = InflightView<W>;

    closed spec fn view(&self) -> InflightView<W> {
        self.entries@.map_values(|e: (String, Vec<W>)| (e.0@, e.1@))
    }
}

impl<W> InflightTable<W> {
    /// The table's invariant holds.
    pub open spec fn wf(&self) -> bool {
        table_wf(self@)
    }

    /// A table with nothing in flight.
    pub fn new() -> (r: Self)
        ensures
            r.wf(),
            r@ == Seq::<(Seq<char>, Seq<W>)>::empty(),
    {
        let r = InflightTable { entries: Vec::new() };
        assert(r@ =~= Seq::<(Seq<char>, Seq<W>)>::empty());
        r
    }

    proof fn lemma_view_index(&self, i: int)
        requires
            0 <= i < self.entries@.len(),
        ensures
            self@.len() == self.entries@.len(),
            self@[i] == (self.entries@[i].0@, self.entries@[i].1@),
    {
    }

    /// The position of `ih` in the table, if it is in flight.
    fn find(&self, ih: &str) -> (r: Option<usize>)
        requires
            self.wf(),
        ensures
            match r {
                Some(i) => {
                    &&& in_flight(self@, ih@)
                    &&& i == flight_index(self@, ih@)
                    &&& i < self@.len()
                },
                None => !in_flight(self@, ih@),
            },
    {
        let key = ih.to_owned();
        let mut i: usize = 0;
        while i < self.entries.len()
            invariant
                i <= self.entries@.len(),
                forall|k: int| 0 <= k < i ==> self.entries@[k].0@ != ih@,
                key@ == ih@,
                self.wf(),
            decreases self.entries@.len() - i,
        {
            if self.entries[i].0 == key {
                proof {
                    self.lemma_view_index(i as int);
                    assert(in_flight(self@, ih@));
                    let c = flight_index(self@, ih@);
                    assert(self@[c].0 == self@[i as int].0);
                    if c > i {
                        assert(self@[i as int].0 != self@[c].0);
                    }
                }
                return Some(i);
            }
            i = i + 1;
        }
        proof {
            assert forall|k: int| 0 <= k < self@.len() implies self@[k].0 != ih@ by {
                self.lemma_view_index(k);
            }
        }
        None
    }

    /// A fetch for `ih` is in flight.
    pub fn contains(&self, ih: &str) -> (r: bool)
        requires
            self.wf(),
        ensures
            r == in_flight(self@, ih@),
    {
        self.find(ih).is_some()
    }

    /// Marks a fetch for `ih` as begun; false, with nothing changed, when one
    /// is already in flight.
    pub fn begin(&mut self, ih: &str) -> (r: bool)
        requires
            old(self).wf(),
        ensures
            final(self).wf(),
            r == !in_flight(old(self)@, ih@),
            final(self)@ == table_begin(old(self)@, ih@),
    {
        match self.find(ih) {
            Some(_) => false,
            None => {
                let ghost s0 = self@;
                self.entries.push((ih.to_owned(), Vec::new()));
                assert(self@ =~= s0.push((ih@, Seq::<W>::empty())));
                true
            },
        }
    }

    /// Lets `w` wait for the fetch for `ih`; false, with `w` dropped and
    /// nothing changed, when none is in flight.
    pub fn join(&mut self, ih: &str, w: W) -> (r: bool)
        requires
            old(self).wf(),
        ensures
            final(self).wf(),
            r == in_flight(old(self)@, ih@),
            final(self)@ == table_join(old(self)@, ih@, w),
    {
        match self.find(ih) {
            None => false,
            Some(i) => {
                let ghost s0 = self@;
                proof {
                    self.lemma_view_index(i as int);
                }
                let (k, mut ws) = self.entries.remove(i);
                ws.push(w);
                self.entries.insert(i, (k, ws));
                assert(self@ =~= s0.update(i as int, (ih@, s0[i as int].1.push(w))));
                true
            },
        }
    }

    /// Ends the fetch for `ih` and hands back its waiters (none when no fetch
    /// was in flight).
    pub fn finish(&mut self, ih: &str) -> (r: Vec<W>)
        requires
            old(self).wf(),
        ensures
            final(self).wf(),
            r@ == waiters_of(old(self)@, ih@),
            final(self)@ == table_finish(old(self)@, ih@),
    {
        match self.find(ih) {
            None => Vec::new(),
            Some(i) => {
                let ghost s0 = self@;
                proof {
                    self.lemma_view_index(i as int);
                }
                let (_, ws) = self.entries.remove(i);
                assert(self@ =~= s0.remove(i as int));
                proof {
                    assert forall|a: int, b: int| 0 <= a < b < self@.len() implies (
                    #[trigger] self@[a]).0 != (#[trigger] self@[b]).0 by {
                        let a0 = if a < i { a } else { a + 1 };
                        let b0 = if b < i { b } else { b + 1 };
                        assert(self@[a] == s0[a0] && self@[b] == s0[b0]);
                    }
                }
                ws
            },
        }
    }
}

} // verus!
