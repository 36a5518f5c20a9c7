//! The membership registry: which peers have announced themselves, and under
//! what display name. Read by the input driver, written by the subscribe
//! driver; the lock that shares it between tasks lives outside this crate.

use vstd::prelude::*;

verus! {

/// Lexicographic order on character sequences, by code point.
pub open spec fn lex_le(a: Seq<char>, b: Seq<char>) -> bool
    decreases a.len(),
{
    if a.len() == 0 {
        true
    } else if b.len() == 0 {
        false
    } else if a[0] == b[0] {
        lex_le(a.drop_first(), b.drop_first())
    } else {
        (a[0] as u32) < (b[0] as u32)
    }
}

/// Any two strings compare in at least one direction.
pub proof fn lemma_lex_le_total(a: Seq<char>, b: Seq<char>)
    ensures
        lex_le(a, b) || lex_le(b, a),
    decreases a.len(),
{
    if a.len() == 0 {
    } else if b.len() == 0 {
    } else if a[0] == b[0] {
        lemma_lex_le_total(a.drop_first(), b.drop_first());
    } else {
        vstd::utf8::char_u32_cast(a[0], a[0] as u32);
        vstd::utf8::char_u32_cast(b[0], b[0] as u32);
    }
}

/// Relies on str's `<=`: Rust orders strings lexicographically by bytes,
/// which under UTF-8 coincides with code-point order.
#[verifier::external_body]
pub fn str_le(a: &str, b: &str) -> (r: bool)
    ensures
        r == lex_le(a@, b@),
{
    a <= b
}

/// Compares two byte strings.
pub fn bytes_eq(a: &Vec<u8>, b: &Vec<u8>) -> (r: bool)
    ensures
        r == (a@ == b@),
{
    if a.len() != b.len() {
        return false;
    }
    let mut i: usize = 0;
    while i < a.len()
        invariant
            i <= a@.len(),
            a@.len() == b@.len(),
            forall|j: int| 0 <= j < i ==> a@[j] == b@[j],
        decreases a@.len() - i,
    {
        if a[i] != b[i] {
            return false;
        }
        i = i + 1;
    }
    proof {
        assert(a@ =~= b@);
    }
    true
}

/// The map named by a list of (id, name) entries, later entries winning.
pub open spec fn map_of(s: Seq<(Vec<u8>, String)>) -> Map<Seq<u8>, Seq<char>>
    decreases s.len(),
{
    if s.len() == 0 {
        Map::empty()
    } else {
        map_of(s.drop_last()).insert(s.last().0@, s.last().1@)
    }
}

/// No id occurs twice in the entry list.
pub open spec fn ids_unique(s: Seq<(Vec<u8>, String)>) -> bool {
    forall|i: int, j: int| 0 <= i < j < s.len() ==> s[i].0@ != s[j].0@
}

/// Every listed id is a key of the map, and under unique ids it carries the
/// listed name.
proof fn lemma_map_of_index(s: Seq<(Vec<u8>, String)>, i: int)
    requires
        0 <= i < s.len(),
    ensures
        map_of(s).contains_key(s[i].0@),
        ids_unique(s) ==> map_of(s)[s[i].0@] == s[i].1@,
    decreases s.len(),
{
    if i == s.len() - 1 {
    } else {
        lemma_map_of_index(s.drop_last(), i);
        assert(s.drop_last()[i] == s[i]);
        if ids_unique(s) {
            assert(ids_unique(s.drop_last())) by {
                assert forall|x: int, y: int|
                    0 <= x < y < s.drop_last().len() implies s.drop_last()[x].0@ != s.drop_last()[y].0@ by {
                    assert(s.drop_last()[x] == s[x]);
                    assert(s.drop_last()[y] == s[y]);
                }
            }
            assert(s.last().0@ != s[i].0@);
        }
    }
}

/// Every key of the map is a listed id.
proof fn lemma_map_of_key(s: Seq<(Vec<u8>, String)>, k: Seq<u8>)
    requires
        map_of(s).contains_key(k),
    ensures
        exists|i: int| 0 <= i < s.len() && s[i].0@ == k,
    decreases s.len(),
{
    if s.len() == 0 {
    } else if s.last().0@ == k {
        assert(s[s.len() - 1].0@ == k);
    } else {
        lemma_map_of_key(s.drop_last(), k);
        let i = choose|i: int| 0 <= i < s.drop_last().len() && s.drop_last()[i].0@ == k;
        assert(s[i].0@ == k);
    }
}

/// Dropping the entry at `idx` removes exactly its key from the map.
proof fn lemma_map_of_remove(s: Seq<(Vec<u8>, String)>, idx: int)
    requires
        ids_unique(s),
        0 <= idx < s.len(),
    ensures
        map_of(s.remove(idx)) == map_of(s).remove(s[idx].0@),
    decreases s.len(),
{
    let k = s[idx].0@;
    if idx == s.len() - 1 {
        assert(s.remove(idx) =~= s.drop_last());
        assert forall|j: int| 0 <= j < s.drop_last().len() implies s.drop_last()[j].0@ != k by {
            assert(s.drop_last()[j] == s[j]);
        }
        if map_of(s.drop_last()).contains_key(k) {
            lemma_map_of_key(s.drop_last(), k);
        }
        assert(map_of(s).remove(k) =~= map_of(s.drop_last()));
    } else {
        assert(ids_unique(s.drop_last())) by {
            assert forall|x: int, y: int|
                0 <= x < y < s.drop_last().len() implies s.drop_last()[x].0@ != s.drop_last()[y].0@ by {
                assert(s.drop_last()[x] == s[x]);
                assert(s.drop_last()[y] == s[y]);
            }
        }
        lemma_map_of_remove(s.drop_last(), idx);
        assert(s.remove(idx).drop_last() =~= s.drop_last().remove(idx));
        assert(s.remove(idx).last() == s.last());
        assert(map_of(s.remove(idx)) == map_of(s.drop_last().remove(idx)).insert(
            s.last().0@,
            s.last().1@,
        ));
        assert(s.last().0@ != k);
        assert(map_of(s).remove(k) =~= map_of(s.drop_last()).remove(k).insert(
            s.last().0@,
            s.last().1@,
        ));
    }
}

/// The registry. Its public face is a map from 32-byte node id to display
/// name; inside it is an association list with unique ids.
pub struct Members {
    entries: Vec<(Vec<u8>, String)>,
}

impl View for Members {
    type V = Map<Seq<u8>, Seq<char>>;

    closed spec fn view(&self) -> Map<Seq<u8>, Seq<char>> {
        map_of(self.entries@)
    }
}

impl Members {
    /// The registry's internal invariant: no id is listed twice.
    pub closed spec fn wf(&self) -> bool {
        ids_unique(self.entries@)
    }

    /// A registry is born empty.
    pub fn new() -> (r: Self)
        ensures
            r.wf(),
            r@ == Map::<Seq<u8>, Seq<char>>::empty(),
    {
        Members { entries: Vec::new() }
    }

    /// Looks a peer up by id.
    pub fn get(&self, id: &Vec<u8>) -> (r: Option<String>)
        requires
            self.wf(),
        ensures
            r is Some <==> self@.contains_key(id@),
            r matches Some(n) ==> n@ == self@[id@],
    {
        let n = self.entries.len();
        let mut i: usize = 0;
        while i < n
            invariant
                self.wf(),
                n == self.entries@.len(),
                i <= n,
                forall|j: int| 0 <= j < i ==> self.entries@[j].0@ != id@,
            decreases n - i,
        {
            if bytes_eq(&self.entries[i].0, id) {
                proof {
                    lemma_map_of_index(self.entries@, i as int);
                }
                return Some(self.entries[i].1.clone());
            }
            i = i + 1;
        }
        proof {
            if self@.contains_key(id@) {
                lemma_map_of_key(self.entries@, id@);
            }
        }
        None
    }

    /// Records a newly seen peer; hands back whether it was new. A repeat
    /// announcement changes nothing.
    pub fn insert_if_absent(&mut self, id: Vec<u8>, name: String) -> (r: bool)
        requires
            old(self).wf(),
        ensures
            final(self).wf(),
            r == !old(self)@.contains_key(id@),
            final(self)@ == if old(self)@.contains_key(id@) {
                old(self)@
            } else {
                old(self)@.insert(id@, name@)
            },
    {
        let n = self.entries.len();
        let mut i: usize = 0;
        while i < n
            invariant
                self.wf(),
                n == self.entries@.len(),
                i <= n,
                forall|j: int| 0 <= j < i ==> self.entries@[j].0@ != id@,
            decreases n - i,
        {
            if bytes_eq(&self.entries[i].0, &id) {
                proof {
                    lemma_map_of_index(self.entries@, i as int);
                }
                return false;
            }
            i = i + 1;
        }
        proof {
            if self@.contains_key(id@) {
                lemma_map_of_key(self.entries@, id@);
            }
        }
        let ghost before = self.entries@;
        self.entries.push((id, name));
        proof {
            assert(self.entries@.drop_last() =~= before);
            assert forall|x: int, y: int|
                0 <= x < y < self.entries@.len() implies self.entries@[x].0@ != self.entries@[y].0@ by {}
        }
        true
    }

    /// Forgets a peer; hands back its name if it was known.
    pub fn remove(&mut self, id: &Vec<u8>) -> (r: Option<String>)
        requires
            old(self).wf(),
        ensures
            final(self).wf(),
            final(self)@ == old(self)@.remove(id@),
            r is Some <==> old(self)@.contains_key(id@),
            r matches Some(n) ==> n@ == old(self)@[id@],
    {
        let n = self.entries.len();
        let mut i: usize = 0;
        while i < n
            invariant
                self == old(self),
                self.wf(),
                n == self.entries@.len(),
                i <= n,
                forall|j: int| 0 <= j < i ==> self.entries@[j].0@ != id@,
            decreases n - i,
        {
            if bytes_eq(&self.entries[i].0, id) {
                proof {
                    lemma_map_of_index(self.entries@, i as int);
                    lemma_map_of_remove(self.entries@, i as int);
                }
                let ghost before = self.entries@;
                let entry = self.entries.remove(i);
                proof {
                    assert forall|x: int, y: int|
                        0 <= x < y < self.entries@.len() implies self.entries@[x].0@
                        != self.entries@[y].0@ by {
                        assert(self.entries@[x] == if x < i { before[x] } else { before[x + 1] });
                        assert(self.entries@[y] == if y < i { before[y] } else { before[y + 1] });
                    }
                }
                return Some(entry.1);
            }
            i = i + 1;
        }
        proof {
            if self@.contains_key(id@) {
                lemma_map_of_key(self.entries@, id@);
            }
            assert(self@.remove(id@) =~= self@);
        }
        None
    }

    /// The number of peers on record.
    pub fn len(&self) -> (r: usize)
        requires
            self.wf(),
        ensures
            r == self@.dom().len(),
    {
        proof {
            lemma_map_of_len(self.entries@);
        }
        self.entries.len()
    }

    /// The membership as (name, id) pairs, sorted by name: every pair is on
    /// record, every recorded peer appears exactly once, and neighbours sit
    /// in lexicographic order.
    #[verifier::rlimit(100)]
    pub fn snapshot_sorted_by_name(&self) -> (r: Vec<(String, Vec<u8>)>)
        requires
            self.wf(),
        ensures
            forall|i: int|
                0 <= i < r@.len() ==> self@.contains_key(#[trigger] r@[i].1@) && r@[i].0@
                    == self@[r@[i].1@],
            forall|k: Seq<u8>|
                self@.contains_key(k) ==> exists|i: int| 0 <= i < r@.len() && #[trigger] r@[i].1@
                    == k,
            forall|i: int, j: int| 0 <= i < j < r@.len() ==> r@[i].1@ != r@[j].1@,
            forall|i: int| 0 <= i && i + 1 < r@.len() ==> lex_le(#[trigger] r@[i].0@, r@[i + 1].0@),
    {
        let n = self.entries.len();
        let mut out: Vec<(String, Vec<u8>)> = Vec::new();
        proof {
            assert(snap_sound(self.entries@, out@, 0)) by {
                reveal(snap_sound);
            }
            assert(snap_complete(self.entries@, out@, 0)) by {
                reveal(snap_complete);
            }
        }
        let mut i: usize = 0;
        while i < n
            invariant
                self.wf(),
                n == self.entries@.len(),
                i <= n,
                snap_sound(self.entries@, out@, i as int),
                snap_complete(self.entries@, out@, i as int),
                forall|p: int, q: int| 0 <= p < q < out@.len() ==> out@[p].1@ != out@[q].1@,
                forall|p: int| 0 <= p && p + 1 < out@.len() ==> lex_le(
                    #[trigger] out@[p].0@,
                    out@[p + 1].0@,
                ),
            decreases n - i,
        {
            let name = self.entries[i].1.clone();
            let id = self.entries[i].0.clone();
            let pos = lower_bound(&out, &name);
            proof {
                if pos < out@.len() {
                    lemma_lex_le_total(out@[pos as int].0@, name@);
                }
                lemma_step_fresh(self.entries@, out@, i as int);
            }
            let ghost before = out@;
            let pair = (name, id);
            let ghost gpair = pair;
            out.insert(pos, pair);
            proof {
                before.insert_ensures(pos as int, gpair);
                assert(step_shape(self.entries@, before, out@, i as int, pos as int));
                lemma_step_fresh(self.entries@, before, i as int);
                lemma_step_sound(self.entries@, before, out@, i as int, pos as int);
                lemma_step_complete(self.entries@, before, out@, i as int, pos as int);
                lemma_step_distinct(self.entries@, before, out@, i as int, pos as int);
                lemma_step_sorted(self.entries@, before, out@, i as int, pos as int);
            }
            i = i + 1;
        }
        proof {
            reveal(snap_sound);
            reveal(snap_complete);
            assert forall|p: int|
                0 <= p < out@.len() implies self@.contains_key(#[trigger] out@[p].1@) && out@[p].0@
                == self@[out@[p].1@] by {
                let j = choose|j: int|
                    0 <= j < n && #[trigger] out@[p].1@ == self.entries@[j].0@ && out@[p].0@
                        == self.entries@[j].1@;
                lemma_map_of_index(self.entries@, j);
            }
            assert forall|k: Seq<u8>| self@.contains_key(k) implies exists|p: int|
                0 <= p < out@.len() && #[trigger] out@[p].1@ == k by {
                lemma_map_of_key(self.entries@, k);
                let j = choose|j: int| 0 <= j < n && self.entries@[j].0@ == k;
                let p = choose|p: int|
                    0 <= p < out@.len() && #[trigger] out@[p].1@ == self.entries@[j].0@;
                assert(out@[p].1@ == k);
            }
        }
        out
    }
}

/// Whether an id is absent from a snapshot under construction.
spec fn no_such_id(s: Seq<(String, Vec<u8>)>, id: Seq<u8>) -> bool {
    forall|p: int| 0 <= p < s.len() ==> s[p].1@ != id
}


/// The shared shape of one snapshot insertion: `after` is `before` with the
/// pair for entry `i` put in at `pos`.
spec fn step_shape(
    entries: Seq<(Vec<u8>, String)>,
    before: Seq<(String, Vec<u8>)>,
    after: Seq<(String, Vec<u8>)>,
    i: int,
    pos: int,
) -> bool {
    &&& 0 <= i < entries.len()
    &&& 0 <= pos <= before.len()
    &&& after.len() == before.len() + 1
    &&& after[pos].0@ == entries[i].1@
    &&& after[pos].1@ == entries[i].0@
    &&& (forall|p: int| 0 <= p < pos ==> after[p] == before[p])
    &&& (forall|p: int| pos < p < after.len() ==> after[p] == before[p - 1])
}

/// Every snapshot pair comes from a processed entry.
#[verifier::opaque]
spec fn snap_sound(entries: Seq<(Vec<u8>, String)>, out: Seq<(String, Vec<u8>)>, i: int) -> bool {
    forall|p: int|
        0 <= p < out.len() ==> exists|j: int|
            0 <= j < i && #[trigger] out[p].1@ == entries[j].0@ && out[p].0@ == entries[j].1@
}

/// Every processed entry has a pair in the snapshot.
#[verifier::opaque]
spec fn snap_complete(
    entries: Seq<(Vec<u8>, String)>,
    out: Seq<(String, Vec<u8>)>,
    i: int,
) -> bool {
    forall|j: int| #![trigger entries[j]]
        0 <= j < i ==> exists|p: int| 0 <= p < out.len() && #[trigger] out[p].1@ == entries[j].0@
}

/// The fresh entry's id is not yet in the snapshot.
proof fn lemma_step_fresh(
    entries: Seq<(Vec<u8>, String)>,
    before: Seq<(String, Vec<u8>)>,
    i: int,
)
    requires
        ids_unique(entries),
        0 <= i < entries.len(),
        snap_sound(entries, before, i),
    ensures
        no_such_id(before, entries[i].0@),
{
    reveal(snap_sound);
    assert forall|p: int| 0 <= p < before.len() implies before[p].1@ != entries[i].0@ by {
        let j = choose|j: int|
            0 <= j < i && #[trigger] before[p].1@ == entries[j].0@ && before[p].0@ == entries[
                j
            ].1@;
    }
}

/// Every pair of the grown snapshot still comes from a processed entry.
proof fn lemma_step_sound(
    entries: Seq<(Vec<u8>, String)>,
    before: Seq<(String, Vec<u8>)>,
    after: Seq<(String, Vec<u8>)>,
    i: int,
    pos: int,
)
    requires
        step_shape(entries, before, after, i, pos),
        snap_sound(entries, before, i),
    ensures
        snap_sound(entries, after, i + 1),
{
    reveal(snap_sound);
    assert forall|p: int|
        0 <= p < after.len() implies exists|j: int|
        0 <= j < i + 1 && #[trigger] after[p].1@ == entries[j].0@ && after[p].0@ == entries[
            j
        ].1@ by {
        if p < pos {
            assert(after[p] == before[p]);
            let j = choose|j: int|
                0 <= j < i && #[trigger] before[p].1@ == entries[j].0@ && before[p].0@ == entries[
                    j
                ].1@;
            assert(after[p].1@ == entries[j].0@ && after[p].0@ == entries[j].1@);
        } else if p == pos {
            assert(after[p].1@ == entries[i].0@ && after[p].0@ == entries[i].1@);
        } else {
            assert(after[p] == before[p - 1]);
            let j = choose|j: int|
                0 <= j < i && #[trigger] before[p - 1].1@ == entries[j].0@ && before[p - 1].0@
                    == entries[j].1@;
            assert(after[p].1@ == entries[j].0@ && after[p].0@ == entries[j].1@);
        }
    }
}

/// Every processed entry still has its pair in the grown snapshot.
proof fn lemma_step_complete(
    entries: Seq<(Vec<u8>, String)>,
    before: Seq<(String, Vec<u8>)>,
    after: Seq<(String, Vec<u8>)>,
    i: int,
    pos: int,
)
    requires
        step_shape(entries, before, after, i, pos),
        snap_complete(entries, before, i),
    ensures
        snap_complete(entries, after, i + 1),
{
    reveal(snap_complete);
    assert forall|j: int| #![trigger entries[j]]
        0 <= j < i + 1 implies exists|p: int| 0 <= p < after.len() && #[trigger] after[p].1@
        == entries[j].0@ by {
        if j < i {
            let p0 = choose|p0: int|
                0 <= p0 < before.len() && #[trigger] before[p0].1@ == entries[j].0@;
            if p0 < pos {
                assert(after[p0].1@ == entries[j].0@);
            } else {
                assert(after[p0 + 1].1@ == entries[j].0@);
            }
        } else {
            assert(after[pos].1@ == entries[j].0@);
        }
    }
}

/// The grown snapshot still lists each id once.
proof fn lemma_step_distinct(
    entries: Seq<(Vec<u8>, String)>,
    before: Seq<(String, Vec<u8>)>,
    after: Seq<(String, Vec<u8>)>,
    i: int,
    pos: int,
)
    requires
        step_shape(entries, before, after, i, pos),
        no_such_id(before, entries[i].0@),
        forall|p: int, q: int| 0 <= p < q < before.len() ==> before[p].1@ != before[q].1@,
    ensures
        forall|p: int, q: int| 0 <= p < q < after.len() ==> after[p].1@ != after[q].1@,
{
    assert forall|p: int, q: int| 0 <= p < q < after.len() implies after[p].1@ != after[q].1@ by {
        if p == pos {
            assert(after[q] == before[q - 1]);
        } else if q == pos {
            assert(after[p] == before[p]);
        } else {
            assert(after[p] == if p < pos { before[p] } else { before[p - 1] });
            assert(after[q] == if q < pos { before[q] } else { before[q - 1] });
        }
    }
}

/// The grown snapshot is still sorted by name.
proof fn lemma_step_sorted(
    entries: Seq<(Vec<u8>, String)>,
    before: Seq<(String, Vec<u8>)>,
    after: Seq<(String, Vec<u8>)>,
    i: int,
    pos: int,
)
    requires
        step_shape(entries, before, after, i, pos),
        forall|p: int| 0 <= p && p + 1 < before.len() ==> lex_le(
            #[trigger] before[p].0@,
            before[p + 1].0@,
        ),
        forall|p: int| 0 <= p < pos ==> lex_le(#[trigger] before[p].0@, entries[i].1@),
        pos < before.len() ==> lex_le(entries[i].1@, before[pos].0@),
    ensures
        forall|p: int| 0 <= p && p + 1 < after.len() ==> lex_le(
            #[trigger] after[p].0@,
            after[p + 1].0@,
        ),
{
    assert forall|p: int| 0 <= p && p + 1 < after.len() implies lex_le(
        #[trigger] after[p].0@,
        after[p + 1].0@,
    ) by {
        if p + 1 < pos {
            assert(after[p] == before[p] && after[p + 1] == before[p + 1]);
        } else if p + 1 == pos {
            assert(after[p] == before[p]);
        } else if p == pos {
            assert(after[p + 1] == before[p]);
        } else {
            assert(after[p] == before[p - 1] && after[p + 1] == before[p]);
        }
    }
}

/// The position before the first snapshot entry whose name exceeds `name`.
fn lower_bound(out: &Vec<(String, Vec<u8>)>, name: &String) -> (pos: usize)
    ensures
        pos <= out@.len(),
        forall|p: int| 0 <= p < pos ==> lex_le(#[trigger] out@[p].0@, name@),
        pos < out@.len() ==> !lex_le(out@[pos as int].0@, name@),
{
    let m = out.len();
    let mut pos: usize = 0;
    while pos < m
        invariant
            m == out@.len(),
            pos <= m,
            forall|p: int| 0 <= p < pos ==> lex_le(#[trigger] out@[p].0@, name@),
        decreases m - pos,
    {
        if !str_le(out[pos].0.as_str(), name.as_str()) {
            return pos;
        }
        pos = pos + 1;
    }
    pos
}

/// Under unique ids, the map has exactly as many keys as the list has
/// entries.
proof fn lemma_map_of_len(s: Seq<(Vec<u8>, String)>)
    requires
        ids_unique(s),
    ensures
        map_of(s).dom().len() == s.len(),
        map_of(s).dom().finite(),
    decreases s.len(),
{
    if s.len() == 0 {
        assert(map_of(s).dom() =~= Set::<Seq<u8>>::empty());
    } else {
        assert(ids_unique(s.drop_last())) by {
            assert forall|x: int, y: int|
                0 <= x < y < s.drop_last().len() implies s.drop_last()[x].0@ != s.drop_last()[y].0@ by {
                assert(s.drop_last()[x] == s[x]);
                assert(s.drop_last()[y] == s[y]);
            }
        }
        lemma_map_of_len(s.drop_last());
        if map_of(s.drop_last()).contains_key(s.last().0@) {
            lemma_map_of_key(s.drop_last(), s.last().0@);
            let i = choose|i: int|
                0 <= i < s.drop_last().len() && s.drop_last()[i].0@ == s.last().0@;
            assert(s[i].0@ == s[s.len() - 1].0@);
            assert(false);
        }
        assert(map_of(s).dom() =~= map_of(s.drop_last()).dom().insert(s.last().0@));
        vstd::set::axiom_set_insert_finite(map_of(s.drop_last()).dom(), s.last().0@);
        vstd::set::axiom_set_insert_len(map_of(s.drop_last()).dom(), s.last().0@);
    }
}

} // verus!
