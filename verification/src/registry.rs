//! The in-memory registry: the authoritative mapping from short code to
//! entry. Its model is a `Map` from the code's characters to the entry's
//! model; the invariant is that no two stored entries share a code, so the
//! mapping is well defined.
use vstd::prelude::*;

use crate::codec::{
    decode_document, encode_document, encode_registry_doc, lemma_document_round_trip,
    parse_document,
};
use crate::entry::{seq_view, visited_entry, EntryModel, UrlEntry};

verus! {

/// Some stored entry carries the code `k`.
pub open spec fn has_code(s: Seq<EntryModel>, k: Seq<char>) -> bool {
    exists|i: int| 0 <= i < s.len() && (#[trigger] s[i]).short_code == k
}

/// The index of the entry carrying the code `k`; well defined under
/// `unique_codes`.
pub open spec fn code_index(s: Seq<EntryModel>, k: Seq<char>) -> int {
    choose|i: int| 0 <= i < s.len() && (#[trigger] s[i]).short_code == k
}

/// No two entries share a short code.
pub open spec fn unique_codes(s: Seq<EntryModel>) -> bool {
    forall|a: int, b: int|
        0 <= a < b < s.len() ==> (#[trigger] s[a]).short_code != (#[trigger] s[b]).short_code
}

/// The mapping that a sequence of entries stands for.
pub open spec fn as_map(s: Seq<EntryModel>) -> Map<Seq<char>, EntryModel> {
    Map::new(|k: Seq<char>| has_code(s, k), |k: Seq<char>| s[code_index(s, k)])
}

/// Under unique codes, the entry at any index is what the mapping holds for
/// its code.
pub proof fn lemma_as_map_at(s: Seq<EntryModel>, i: int)
    requires
        unique_codes(s),
        0 <= i < s.len(),
    ensures
        as_map(s).contains_key(s[i].short_code),
        as_map(s)[s[i].short_code] == s[i],
{
    let k = s[i].short_code;
    assert(has_code(s, k));
    let j = code_index(s, k);
    assert(0 <= j < s.len() && s[j].short_code == k);
    if j < i {
        assert(s[j].short_code != s[i].short_code);
    } else if i < j {
        assert(s[i].short_code != s[j].short_code);
    }
}

/// Appending an entry with a fresh code inserts it into the mapping.
pub proof fn lemma_as_map_push(s: Seq<EntryModel>, e: EntryModel)
    requires
        unique_codes(s),
        !has_code(s, e.short_code),
    ensures
        unique_codes(s.push(e)),
        as_map(s.push(e)) == as_map(s).insert(e.short_code, e),
{
    let t = s.push(e);
    assert forall|a: int, b: int|
        0 <= a < b < t.len() implies (#[trigger] t[a]).short_code != (
    #[trigger] t[b]).short_code by {
        if b < s.len() {
            assert(t[a] == s[a] && t[b] == s[b]);
        } else {
            assert(t[b] == e && t[a] == s[a]);
            if s[a].short_code == e.short_code {
                assert(has_code(s, e.short_code));
            }
        }
    }
    let m1 = as_map(t);
    let m2 = as_map(s).insert(e.short_code, e);
    assert forall|k: Seq<char>| #[trigger] m1.contains_key(k) implies m2.contains_key(k)
        && m1[k] == m2[k] by {
        let i = code_index(t, k);
        assert(0 <= i < t.len() && t[i].short_code == k);
        if i == s.len() {
            assert(t[i] == e && k == e.short_code);
            assert(m1[k] == e);
        } else {
            assert(t[i] == s[i]);
            assert(has_code(s, k));
            assert(k != e.short_code);
            let j = code_index(s, k);
            assert(0 <= j < s.len() && s[j].short_code == k);
            if j < i {
                assert(t[j] == s[j]);
                assert(t[j].short_code != t[i].short_code);
            } else if i < j {
                assert(t[j] == s[j]);
                assert(t[i].short_code != t[j].short_code);
            }
            assert(m1[k] == s[j] && m2[k] == s[j]);
        }
    }
    assert forall|k: Seq<char>| #[trigger] m2.contains_key(k) implies m1.contains_key(k) by {
        if k == e.short_code {
            assert(t[s.len() as int].short_code == k);
            assert(has_code(t, k));
        } else {
            let j = code_index(s, k);
            assert(0 <= j < s.len() && s[j].short_code == k);
            assert(t[j].short_code == k);
            assert(has_code(t, k));
        }
    }
    assert(m1 =~= m2);
}

/// Removing the entry at an index removes its code from the mapping.
pub proof fn lemma_as_map_remove(s: Seq<EntryModel>, i: int)
    requires
        unique_codes(s),
        0 <= i < s.len(),
    ensures
        unique_codes(s.remove(i)),
        !has_code(s.remove(i), s[i].short_code),
        as_map(s.remove(i)) == as_map(s).remove(s[i].short_code),
{
    let t = s.remove(i);
    let k0 = s[i].short_code;
    s.remove_ensures(i);
    assert forall|a: int, b: int|
        0 <= a < b < t.len() implies (#[trigger] t[a]).short_code != (
    #[trigger] t[b]).short_code by {
        let a0: int = if a < i {
            a
        } else {
            a + 1
        };
        let b0: int = if b < i {
            b
        } else {
            b + 1
        };
        assert(t[a] == s[a0] && t[b] == s[b0]);
        assert(s[a0].short_code != s[b0].short_code);
    }
    assert forall|j: int| 0 <= j < t.len() implies (#[trigger] t[j]).short_code != k0 by {
        let j0: int = if j < i {
            j
        } else {
            j + 1
        };
        assert(t[j] == s[j0]);
        if j0 < i {
            assert(s[j0].short_code != s[i].short_code);
        } else {
            assert(s[i].short_code != s[j0].short_code);
        }
    }
    let m1 = as_map(t);
    let m2 = as_map(s).remove(k0);
    assert forall|k: Seq<char>| #[trigger] m1.contains_key(k) implies m2.contains_key(k)
        && m1[k] == m2[k] by {
        let j = code_index(t, k);
        assert(0 <= j < t.len() && t[j].short_code == k);
        assert(k != k0);
        let j0: int = if j < i {
            j
        } else {
            j + 1
        };
        assert(t[j] == s[j0] && s[j0].short_code == k);
        assert(has_code(s, k));
        lemma_as_map_at(s, j0);
        lemma_as_map_at(t, j);
        assert(m1[k] == t[j]);
        assert(m2[k] == as_map(s)[k]);
        assert(as_map(s)[k] == s[j0]);
    }
    assert forall|k: Seq<char>| #[trigger] m2.contains_key(k) implies m1.contains_key(k) by {
        assert(k != k0 && has_code(s, k));
        let j0 = code_index(s, k);
        assert(0 <= j0 < s.len() && s[j0].short_code == k);
        assert(j0 != i);
        let j: int = if j0 < i {
            j0
        } else {
            j0 - 1
        };
        assert(t[j] == s[j0]);
        assert(has_code(t, k));
    }
    assert(m1 =~= m2);
}

/// The in-memory registry of shortened links.
pub struct Registry {
    entries: Vec<UrlEntry>,
}

impl View for Registry {
    type V = Map<Seq<char>, EntryModel>;

    closed spec fn view(&self) -> Map<Seq<char>, EntryModel> {
        as_map(seq_view(self.entries@))
    }
}

impl Registry {
    /// The models of the stored entries, in storage order.
    pub closed spec fn models(&self) -> Seq<EntryModel> {
        seq_view(self.entries@)
    }

    /// The registry invariant: codes are unique, so the mapping is exactly
    /// the stored entries.
    pub closed spec fn wf(&self) -> bool {
        unique_codes(self.models())
    }

    /// The mapping is the one the stored entries stand for.
    pub proof fn lemma_view_is_models(&self)
        ensures
            self@ == as_map(self.models()),
    {
    }

    /// An empty registry.
    pub fn new() -> (r: Registry)
        ensures
            r.wf(),
            r@ == Map::<Seq<char>, EntryModel>::empty(),
            r.models() == Seq::<EntryModel>::empty(),
    {
        let r = Registry { entries: Vec::new() };
        proof {
            assert(r.models() =~= Seq::<EntryModel>::empty());
            assert(r@ =~= Map::<Seq<char>, EntryModel>::empty());
        }
        r
    }

    /// The index of the entry with this code, if one is stored.
    fn find_index(&self, code: &String) -> (r: Option<usize>)
        ensures
            match r {
                Option::Some(i) => i < self.models().len() && self.models()[i as int].short_code
                    == code@,
                Option::None => !has_code(self.models(), code@),
            },
    {
        let n = self.entries.len();
        let mut i: usize = 0;
        while i < n
            invariant
                n == self.entries.len(),
                i <= n,
                forall|j: int| 0 <= j < i ==> (#[trigger] self.models()[j]).short_code != code@,
            decreases n - i,
        {
            if self.entries[i].short_code == *code {
                return Option::Some(i);
            }
            i += 1;
        }
        Option::None
    }

    /// How many links are stored.
    pub fn count(&self) -> (r: usize)
        ensures
            r == self.models().len(),
    {
        self.entries.len()
    }

    /// Returns a copy of the entry stored under this code, if any. No side
    /// effects.
    pub fn get(&self, code: &String) -> (r: Option<UrlEntry>)
        requires
            self.wf(),
        ensures
            match r {
                Option::Some(e) => self@.contains_key(code@) && e@ == self@[code@]
                    && e@.short_code == code@,
                Option::None => !self@.contains_key(code@),
            },
    {
        match self.find_index(code) {
            Option::Some(i) => {
                proof {
                    lemma_as_map_at(self.models(), i as int);
                }
                Option::Some(self.entries[i].clone())
            },
            Option::None => Option::None,
        }
    }

    /// Returns a snapshot copy of all entries; the order is unspecified.
    /// Every listed entry is exactly what the mapping holds for its code.
    pub fn list(&self) -> (r: Vec<UrlEntry>)
        requires
            self.wf(),
        ensures
            seq_view(r@) == self.models(),
            forall|i: int|
                0 <= i < r@.len() ==> self@.contains_key((#[trigger] r@[i])@.short_code)
                    && self@[r@[i]@.short_code] == r@[i]@,
    {
        let n = self.entries.len();
        let mut out: Vec<UrlEntry> = Vec::new();
        let mut i: usize = 0;
        while i < n
            invariant
                n == self.entries.len(),
                i <= n,
                out@.len() == i,
                forall|j: int| 0 <= j < i ==> (#[trigger] out@[j])@ == self.models()[j],
            decreases n - i,
        {
            out.push(self.entries[i].clone());
            i += 1;
        }
        proof {
            assert(seq_view(out@) =~= self.models());
            assert forall|i0: int|
                0 <= i0 < out@.len() implies self@.contains_key(
                (#[trigger] out@[i0])@.short_code,
            ) && self@[out@[i0]@.short_code] == out@[i0]@ by {
                lemma_as_map_at(self.models(), i0);
            }
        }
        out
    }

    /// Stores an entry under its code; the caller guarantees the code is
    /// fresh, so nothing is ever overwritten.
    pub fn insert(&mut self, e: UrlEntry)
        requires
            old(self).wf(),
            !old(self)@.contains_key(e@.short_code),
        ensures
            final(self).wf(),
            final(self)@ == old(self)@.insert(e@.short_code, e@),
            final(self).models() == old(self).models().push(e@),
    {
        proof {
            lemma_as_map_push(self.models(), e@);
        }
        let ghost pre = self.models();
        self.entries.push(e);
        proof {
            assert(self.models() =~= pre.push(e@));
        }
    }

    /// Deletes the entry under this code if one is stored; reports whether
    /// one was.
    pub fn remove(&mut self, code: &String) -> (r: bool)
        requires
            old(self).wf(),
        ensures
            final(self).wf(),
            r == old(self)@.contains_key(code@),
            final(self)@ == old(self)@.remove(code@),
    {
        match self.find_index(code) {
            Option::Some(i) => {
                proof {
                    lemma_as_map_at(self.models(), i as int);
                    lemma_as_map_remove(self.models(), i as int);
                }
                let ghost pre = self.models();
                self.entries.remove(i);
                proof {
                    assert(self.models() =~= pre.remove(i as int));
                }
                true
            },
            Option::None => {
                proof {
                    assert(!self@.contains_key(code@));
                    assert(self@.remove(code@) =~= self@);
                }
                false
            },
        }
    }

    /// Counts one visit on the entry under this code, at time `now`: its
    /// counter grows by one (saturating at the `u32` limit) and its visit
    /// time becomes `now`. Reports whether the entry exists; nothing is
    /// created for an unknown code.
    pub fn record_visit(&mut self, code: &String, now: i64) -> (r: bool)
        requires
            old(self).wf(),
        ensures
            final(self).wf(),
            r == old(self)@.contains_key(code@),
            r ==> final(self)@ == old(self)@.insert(
                code@,
                visited_entry(old(self)@[code@], now),
            ),
            !r ==> final(self)@ == old(self)@,
    {
        match self.find_index(code) {
            Option::Some(i) => {
                proof {
                    lemma_as_map_at(self.models(), i as int);
                    lemma_as_map_remove(self.models(), i as int);
                }
                let ghost pre = self.models();
                let mut e = self.entries.remove(i);
                proof {
                    assert(self.models() =~= pre.remove(i as int));
                }
                if e.visit_count < u32::MAX {
                    e.visit_count = e.visit_count + 1;
                }
                e.last_visit = Option::Some(now);
                proof {
                    assert(e@ == visited_entry(pre[i as int], now));
                    lemma_as_map_push(self.models(), e@);
                }
                let ghost mid = self.models();
                self.entries.push(e);
                proof {
                    assert(self.models() =~= mid.push(e@));
                    assert(as_map(pre).remove(code@).insert(code@, e@) =~= as_map(pre).insert(
                        code@,
                        e@,
                    ));
                }
                true
            },
            Option::None => {
                proof {
                    assert(!self@.contains_key(code@));
                }
                false
            },
        }
    }
}

/// No two stored entries of a well-formed registry share a short code, so
/// one create can never silently overwrite another's entry.
pub proof fn lemma_wf_distinct_codes(r: &Registry)
    requires
        r.wf(),
    ensures
        unique_codes(r.models()),
        forall|i: int, j: int|
            0 <= i < j < r.models().len() ==> (#[trigger] r.models()[i]).short_code != (
            #[trigger] r.models()[j]).short_code,
{
}

/// Whether no two entries of `v` share a short code.
fn check_unique(v: &Vec<UrlEntry>) -> (r: bool)
    ensures
        r == unique_codes(seq_view(v@)),
{
    let n = v.len();
    let mut i: usize = 0;
    while i < n
        invariant
            n == v.len(),
            i <= n,
            forall|a: int, b: int|
                0 <= a < b < n && a < i ==> (#[trigger] seq_view(v@)[a]).short_code != (
                #[trigger] seq_view(v@)[b]).short_code,
        decreases n - i,
    {
        let mut j: usize = i + 1;
        while j < n
            invariant
                n == v.len(),
                i < n,
                i < j <= n,
                forall|a: int, b: int|
                    0 <= a < b < n && a < i ==> (#[trigger] seq_view(v@)[a]).short_code != (
                    #[trigger] seq_view(v@)[b]).short_code,
                forall|b: int|
                    i < b < j ==> (#[trigger] seq_view(v@)[b]).short_code != seq_view(
                        v@,
                    )[i as int].short_code,
            decreases n - j,
        {
            if v[i].short_code == v[j].short_code {
                proof {
                    assert(seq_view(v@)[i as int].short_code == seq_view(v@)[j as int].short_code);
                }
                return false;
            }
            j += 1;
        }
        i += 1;
    }
    true
}

impl Registry {
    /// Renders the registry as one durable document; the document reads
    /// back as exactly the stored entries.
    pub fn to_document(&self) -> (r: String)
        ensures
            r@ == encode_document(self.models()),
            decode_document(r@) == Option::Some(self.models()),
    {
        let r = encode_registry_doc(&self.entries);
        proof {
            lemma_document_round_trip(self.models());
        }
        r
    }

    /// Rebuilds a registry from a stored document. An absent document, a
    /// malformed one, and one with a repeated code all yield the empty
    /// registry: startup never fails on a bad store.
    pub fn from_document(doc: Option<&str>) -> (r: Registry)
        ensures
            r.wf(),
            match doc {
                Option::Some(s) => match decode_document(s@) {
                    Option::Some(es) => if unique_codes(es) {
                        r@ == as_map(es) && r.models() == es
                    } else {
                        r@ == Map::<Seq<char>, EntryModel>::empty()
                    },
                    Option::None => r@ == Map::<Seq<char>, EntryModel>::empty(),
                },
                Option::None => r@ == Map::<Seq<char>, EntryModel>::empty(),
            },
    {
        match doc {
            Option::Some(s) => match parse_document(s) {
                Option::Some(v) => {
                    if check_unique(&v) {
                        Registry { entries: v }
                    } else {
                        Registry::new()
                    }
                },
                Option::None => Registry::new(),
            },
            Option::None => Registry::new(),
        }
    }
}

} // verus!
