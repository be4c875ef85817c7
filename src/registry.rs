//! The registry of named clients: each username maps to the token of the one
//! session that holds it.
use vstd::prelude::*;
use vstd::utf8::*;
use crate::message::strings_view;

verus! {

broadcast use {encode_utf8_decode_utf8, encode_utf8_valid_utf8};

/// Whether two strings hold the same characters, compared byte by byte.
pub fn str_eq(a: &str, b: &str) -> (r: bool)
    ensures
        r == (a@ == b@),
{
    let x = a.as_bytes();
    let y = b.as_bytes();
    assert(x@ == encode_utf8(a@));
    assert(y@ == encode_utf8(b@));
    if x.len() != y.len() {
        return false;
    }
    let mut i: usize = 0;
    while i < x.len()
        invariant
            x@ == encode_utf8(a@),
            y@ == encode_utf8(b@),
            x@.len() == y@.len(),
            i <= x@.len(),
            x@.take(i as int) == y@.take(i as int),
        decreases x@.len() - i,
    {
        if x[i] != y[i] {
            assert(x@[i as int] != y@[i as int]);
            return false;
        }
        i = i + 1;
        assert(x@.take(i as int) =~= x@.take(i - 1).push(x@[i - 1]));
        assert(y@.take(i as int) =~= y@.take(i - 1).push(y@[i - 1]));
    }
    assert(x@.take(i as int) =~= x@);
    assert(y@.take(i as int) =~= y@);
    assert(decode_utf8(encode_utf8(a@)) == a@);
    assert(decode_utf8(encode_utf8(b@)) == b@);
    true
}

/// A registry entry as plain values: a username and its session's token.
pub open spec fn entry_view(e: (String, u64)) -> (Seq<char>, u64) {
    (e.0@, e.1)
}

/// The entries of `v` as plain values.
pub open spec fn entries_view(v: Seq<(String, u64)>) -> Seq<(Seq<char>, u64)> {
    v.map_values(|e: (String, u64)| entry_view(e))
}

/// No username occurs twice among `entries`.
pub open spec fn names_unique(entries: Seq<(Seq<char>, u64)>) -> bool {
    forall|i: int, j: int|
        0 <= i < entries.len() && 0 <= j < entries.len() && i != j ==> #[trigger] entries[i].0
            != #[trigger] entries[j].0
}

/// Some entry of `entries` has the username `name`.
pub open spec fn has_name(entries: Seq<(Seq<char>, u64)>, name: Seq<char>) -> bool {
    exists|i: int| 0 <= i < entries.len() && #[trigger] entries[i].0 == name
}

/// The position of the entry with the username `name`.
pub open spec fn name_index(entries: Seq<(Seq<char>, u64)>, name: Seq<char>) -> int {
    choose|i: int| 0 <= i < entries.len() && #[trigger] entries[i].0 == name
}

/// The usernames of `entries`, in order.
pub open spec fn names_of(entries: Seq<(Seq<char>, u64)>) -> Seq<Seq<char>> {
    entries.map_values(|e: (Seq<char>, u64)| e.0)
}

/// The entries whose username is not `name`, in order.
pub open spec fn others(entries: Seq<(Seq<char>, u64)>, name: Seq<char>) -> Seq<
    (Seq<char>, u64),
>
    decreases entries.len(),
{
    if entries.len() == 0 {
        seq![]
    } else {
        let init = others(entries.drop_last(), name);
        if entries.last().0 != name {
            init.push(entries.last())
        } else {
            init
        }
    }
}

/// With unique usernames, the entry at `i` is the one found for its username.
pub proof fn lemma_name_index(entries: Seq<(Seq<char>, u64)>, i: int)
    requires
        names_unique(entries),
        0 <= i < entries.len(),
    ensures
        has_name(entries, entries[i].0),
        name_index(entries, entries[i].0) == i,
{
    assert(entries[i].0 == entries[i].0);
}

/// The usernames of the clients that have joined, each with the token of its
/// session, in the order in which they joined.
pub struct Registry {
    entries: Vec<(String, u64)>,
}

impl View for Registry {
    type V = Seq<(Seq<char>, u64)>;

    closed spec fn view(&self) -> Seq<(Seq<char>, u64)> {
        entries_view(self.entries@)
    }
}

impl Registry {
    /// Usernames are unique.
    pub open spec fn wf(&self) -> bool {
        names_unique(self@)
    }

    pub fn new(capacity: usize) -> (r: Registry)
        ensures
            r@ == Seq::<(Seq<char>, u64)>::empty(),
            r.wf(),
    {
        let r = Registry { entries: Vec::with_capacity(capacity) };
        assert(r@ =~= Seq::<(Seq<char>, u64)>::empty());
        r
    }

    pub fn len(&self) -> (r: usize)
        ensures
            r == self@.len(),
    {
        self.entries.len()
    }

    /// The position of the entry for `name`, if there is one.
    fn find(&self, name: &str) -> (r: Option<usize>)
        requires
            self.wf(),
        ensures
            r is Some <==> has_name(self@, name@),
            r matches Some(i) ==> i == name_index(self@, name@) && i < self@.len(),
    {
        let mut i: usize = 0;
        while i < self.entries.len()
            invariant
                self.wf(),
                i <= self@.len(),
                self@.len() == self.entries@.len(),
                forall|j: int| 0 <= j < i ==> #[trigger] self@[j].0 != name@,
            decreases self.entries@.len() - i,
        {
            if str_eq(self.entries[i].0.as_str(), name) {
                proof {
                    lemma_name_index(self@, i as int);
                }
                return Some(i);
            }
            i = i + 1;
        }
        None
    }

    /// Whether `name` is taken.
    pub fn is_taken(&self, name: &str) -> (r: bool)
        requires
            self.wf(),
        ensures
            r == has_name(self@, name@),
    {
        self.find(name).is_some()
    }

    /// Registers `name` for the session `token` where the name is free, and
    /// returns whether it did.
    pub fn try_add(&mut self, name: String, token: u64) -> (added: bool)
        requires
            old(self).wf(),
        ensures
            final(self).wf(),
            added == !has_name(old(self)@, name@),
            added ==> final(self)@ == old(self)@.push((name@, token)),
            !added ==> final(self)@ == old(self)@,
    {
        if self.find(name.as_str()).is_some() {
            return false;
        }
        let ghost pre = self@;
        let ghost n = name@;
        self.entries.push((name, token));
        assert(self@ =~= pre.push((n, token)));
        assert forall|i: int, j: int|
            0 <= i < self@.len() && 0 <= j < self@.len() && i != j implies #[trigger] self@[i].0
            != #[trigger] self@[j].0 by {
            if i == pre.len() as int {
                assert(pre[j].0 != n);
            } else if j == pre.len() as int {
                assert(pre[i].0 != n);
            }
        }
        true
    }

    /// Removes the entry for `name`, returning its token, if there is one.
    pub fn remove(&mut self, name: &str) -> (r: Option<u64>)
        requires
            old(self).wf(),
        ensures
            final(self).wf(),
            has_name(old(self)@, name@) ==> r == Some(old(self)@[name_index(old(self)@, name@)].1)
                && final(self)@ == old(self)@.remove(name_index(old(self)@, name@)),
            !has_name(old(self)@, name@) ==> r is None && final(self)@ == old(self)@,
    {
        match self.find(name) {
            Some(i) => {
                let ghost pre = self@;
                let e = self.entries.remove(i);
                assert(self@ =~= pre.remove(i as int));
                assert forall|a: int, b: int|
                    0 <= a < self@.len() && 0 <= b < self@.len() && a != b implies #[trigger] self@[a].0
                    != #[trigger] self@[b].0 by {
                    let a2 = if a < i { a } else { a + 1 };
                    let b2 = if b < i { b } else { b + 1 };
                    assert(self@[a] == pre[a2]);
                    assert(self@[b] == pre[b2]);
                }
                Some(e.1)
            },
            None => None,
        }
    }

    /// The token registered for `name`, if any.
    pub fn get(&self, name: &str) -> (r: Option<u64>)
        requires
            self.wf(),
        ensures
            has_name(self@, name@) ==> r == Some(self@[name_index(self@, name@)].1),
            !has_name(self@, name@) ==> r is None,
    {
        match self.find(name) {
            Some(i) => Some(self.entries[i].1),
            None => None,
        }
    }

    /// All usernames, in the order in which they joined.
    pub fn get_usernames_list(&self) -> (r: Vec<String>)
        ensures
            strings_view(r@) == names_of(self@),
    {
        let mut r: Vec<String> = Vec::new();
        let mut i: usize = 0;
        while i < self.entries.len()
            invariant
                i <= self@.len(),
                self@.len() == self.entries@.len(),
                strings_view(r@) == names_of(self@.take(i as int)),
            decreases self.entries@.len() - i,
        {
            let ghost pre = r@;
            let ghost t = self@.take(i + 1);
            assert(t.drop_last() =~= self@.take(i as int));
            r.push(self.entries[i].0.clone());
            assert(strings_view(r@) =~= strings_view(pre).push(self@[i as int].0));
            assert(names_of(t) =~= names_of(t.drop_last()).push(t.last().0));
            i = i + 1;
            assert(strings_view(r@) =~= names_of(self@.take(i as int)));
        }
        assert(self@.take(i as int) =~= self@);
        r
    }

    /// The entries of every client but `sender`, in the order in which they
    /// joined.
    pub fn broadcast_targets(&self, sender: &str) -> (r: Vec<(String, u64)>)
        ensures
            entries_view(r@) == others(self@, sender@),
    {
        let mut r: Vec<(String, u64)> = Vec::new();
        let mut i: usize = 0;
        while i < self.entries.len()
            invariant
                i <= self@.len(),
                self@.len() == self.entries@.len(),
                entries_view(r@) == others(self@.take(i as int), sender@),
            decreases self.entries@.len() - i,
        {
            let ghost pre = r@;
            let ghost t = self@.take(i + 1);
            assert(t.drop_last() =~= self@.take(i as int));
            assert(t.last() == self@[i as int]);
            assert(others(t, sender@) == if t.last().0 != sender@ {
                others(t.drop_last(), sender@).push(t.last())
            } else {
                others(t.drop_last(), sender@)
            });
            if !str_eq(self.entries[i].0.as_str(), sender) {
                r.push((self.entries[i].0.clone(), self.entries[i].1));
                assert(entries_view(r@) =~= entries_view(pre).push(self@[i as int]));
            } else {
                assert(entries_view(r@) =~= entries_view(pre));
            }
            i = i + 1;
        }
        assert(self@.take(i as int) =~= self@);
        r
    }

    /// Removes every entry.
    pub fn clear(&mut self)
        ensures
            final(self)@ == Seq::<(Seq<char>, u64)>::empty(),
            final(self).wf(),
    {
        self.entries.clear();
        assert(self@ =~= Seq::<(Seq<char>, u64)>::empty());
    }
}

} // verus!
