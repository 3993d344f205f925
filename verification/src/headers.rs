//! Response headers: a map from header name to value whose entries are kept
//! sorted by name, in the byte order of the names' UTF-8 encoding (the order
//! in which std orders `String`s).

use vstd::prelude::*;
use vstd::utf8::*;

verus! {

broadcast use vstd::utf8::encode_utf8_decode_utf8;

/// Strict lexicographic order on byte strings.
pub open spec fn bytes_lt(a: Seq<u8>, b: Seq<u8>) -> bool
    decreases a.len(),
{
    if b.len() == 0 {
        false
    } else if a.len() == 0 {
        true
    } else if a[0] != b[0] {
        a[0] < b[0]
    } else {
        bytes_lt(a.drop_first(), b.drop_first())
    }
}

/// Strict order on header names: by the bytes of their UTF-8 encoding.
pub open spec fn name_lt(a: Seq<char>, b: Seq<char>) -> bool {
    bytes_lt(encode_utf8(a), encode_utf8(b))
}

/// The entries are strictly increasing by name (so no name occurs twice).
pub open spec fn names_sorted(h: Seq<(Seq<char>, Seq<char>)>) -> bool {
    forall|i: int, j: int| 0 <= i < j < h.len() ==> name_lt(#[trigger] h[i].0, #[trigger] h[j].0)
}

/// Some entry has this name.
pub open spec fn has_name(h: Seq<(Seq<char>, Seq<char>)>, k: Seq<char>) -> bool {
    exists|i: int| 0 <= i < h.len() && #[trigger] h[i].0 == k
}

/// An index of an entry with this name (meaningful when `has_name`).
pub open spec fn index_of(h: Seq<(Seq<char>, Seq<char>)>, k: Seq<char>) -> int {
    choose|i: int| 0 <= i < h.len() && #[trigger] h[i].0 == k
}

/// The value of the entry with this name (meaningful when `has_name`).
pub open spec fn value_for(h: Seq<(Seq<char>, Seq<char>)>, k: Seq<char>) -> Seq<char> {
    h[index_of(h, k)].1
}

/// The entries read as a map from name to value.
pub open spec fn as_map(h: Seq<(Seq<char>, Seq<char>)>) -> Map<Seq<char>, Seq<char>> {
    Map::new(|k: Seq<char>| has_name(h, k), |k: Seq<char>| value_for(h, k))
}

/// No byte string is below itself.
pub proof fn lemma_bytes_lt_irreflexive(a: Seq<u8>)
    ensures
        !bytes_lt(a, a),
    decreases a.len(),
{
    if a.len() > 0 {
        lemma_bytes_lt_irreflexive(a.drop_first());
    }
}

/// Two byte strings are never each below the other.
pub proof fn lemma_bytes_lt_asymmetric(a: Seq<u8>, b: Seq<u8>)
    ensures
        !(bytes_lt(a, b) && bytes_lt(b, a)),
    decreases a.len(),
{
    if a.len() > 0 && b.len() > 0 && a[0] == b[0] {
        lemma_bytes_lt_asymmetric(a.drop_first(), b.drop_first());
    }
}

/// Two different byte strings are ordered one way or the other.
pub proof fn lemma_bytes_lt_total(a: Seq<u8>, b: Seq<u8>)
    requires
        a != b,
    ensures
        bytes_lt(a, b) || bytes_lt(b, a),
    decreases a.len(),
{
    if a.len() > 0 && b.len() > 0 && a[0] == b[0] {
        if a.drop_first() == b.drop_first() {
            assert(a =~= seq![a[0]] + a.drop_first());
            assert(b =~= seq![b[0]] + b.drop_first());
        }
        lemma_bytes_lt_total(a.drop_first(), b.drop_first());
    } else if a.len() == 0 && b.len() == 0 {
        assert(a =~= b);
    }
}

/// The order on byte strings is transitive.
pub proof fn lemma_bytes_lt_transitive(a: Seq<u8>, b: Seq<u8>, c: Seq<u8>)
    requires
        bytes_lt(a, b),
        bytes_lt(b, c),
    ensures
        bytes_lt(a, c),
    decreases a.len(),
{
    if a.len() > 0 && a[0] == b[0] && b[0] == c[0] {
        lemma_bytes_lt_transitive(a.drop_first(), b.drop_first(), c.drop_first());
    }
}

/// Names are equal exactly when their encodings are.
pub proof fn lemma_encoding_injective(a: Seq<char>, b: Seq<char>)
    ensures
        (encode_utf8(a) == encode_utf8(b)) == (a == b),
{
    if encode_utf8(a) == encode_utf8(b) {
        assert(decode_utf8(encode_utf8(a)) == a);
        assert(decode_utf8(encode_utf8(b)) == b);
    }
}

/// Orders two names: no name is below itself, two names are never each
/// below the other, and different names are ordered one way or the other.
pub proof fn lemma_name_order(a: Seq<char>, b: Seq<char>)
    ensures
        !name_lt(a, a),
        !(name_lt(a, b) && name_lt(b, a)),
        a != b ==> name_lt(a, b) || name_lt(b, a),
{
    lemma_bytes_lt_irreflexive(encode_utf8(a));
    lemma_bytes_lt_asymmetric(encode_utf8(a), encode_utf8(b));
    lemma_encoding_injective(a, b);
    if a != b {
        lemma_bytes_lt_total(encode_utf8(a), encode_utf8(b));
    }
}

/// The order on names is transitive.
pub proof fn lemma_name_lt_transitive(a: Seq<char>, b: Seq<char>, c: Seq<char>)
    requires
        name_lt(a, b),
        name_lt(b, c),
    ensures
        name_lt(a, c),
{
    lemma_bytes_lt_transitive(encode_utf8(a), encode_utf8(b), encode_utf8(c));
}

/// In sorted entries, each name sits at one index only.
pub proof fn lemma_sorted_names_unique(h: Seq<(Seq<char>, Seq<char>)>, i: int, j: int)
    requires
        names_sorted(h),
        0 <= i < h.len(),
        0 <= j < h.len(),
        h[i].0 == h[j].0,
    ensures
        i == j,
{
    lemma_name_order(h[i].0, h[j].0);
    if i < j {
        assert(name_lt(h[i].0, h[j].0));
    } else if j < i {
        assert(name_lt(h[j].0, h[i].0));
    }
}

/// In sorted entries, the value for the name at index `i` is the value at `i`.
pub proof fn lemma_value_at(h: Seq<(Seq<char>, Seq<char>)>, i: int)
    requires
        names_sorted(h),
        0 <= i < h.len(),
    ensures
        has_name(h, h[i].0),
        value_for(h, h[i].0) == h[i].1,
{
    let k = h[i].0;
    assert(exists|j: int| 0 <= j < h.len() && #[trigger] h[j].0 == k) by {
        assert(h[i].0 == k);
    }
    lemma_sorted_names_unique(h, i, index_of(h, k));
}

/// Whether the bytes of `a` come strictly before those of `b`.
pub fn bytes_less(a: &[u8], b: &[u8]) -> (r: bool)
    ensures
        r == bytes_lt(a@, b@),
{
    let mut i: usize = 0;
    assert(a@.skip(0) =~= a@);
    assert(b@.skip(0) =~= b@);
    while i < a.len() && i < b.len()
        invariant
            i <= a@.len(),
            i <= b@.len(),
            bytes_lt(a@, b@) == bytes_lt(a@.skip(i as int), b@.skip(i as int)),
        decreases a@.len() - i,
    {
        if a[i] != b[i] {
            return a[i] < b[i];
        }
        assert(a@.skip(i as int).drop_first() =~= a@.skip(i + 1));
        assert(b@.skip(i as int).drop_first() =~= b@.skip(i + 1));
        i = i + 1;
    }
    i < b.len()
}

/// Whether two byte strings are equal.
pub fn bytes_equal(a: &[u8], b: &[u8]) -> (r: bool)
    ensures
        r == (a@ == b@),
{
    if a.len() != b.len() {
        return false;
    }
    let mut i: usize = 0;
    while i < a.len()
        invariant
            a@.len() == b@.len(),
            i <= a@.len(),
            forall|j: int| 0 <= j < i ==> a@[j] == b@[j],
        decreases a@.len() - i,
    {
        if a[i] != b[i] {
            return false;
        }
        i = i + 1;
    }
    assert(a@ =~= b@);
    true
}

/// Whether two strings are equal.
pub fn str_equal(a: &str, b: &str) -> (r: bool)
    ensures
        r == (a@ == b@),
{
    let r = bytes_equal(a.as_bytes(), b.as_bytes());
    proof {
        lemma_encoding_injective(a@, b@);
    }
    r
}

/// Whether the name `a` sorts strictly before the name `b`.
pub fn name_less(a: &str, b: &str) -> (r: bool)
    ensures
        r == name_lt(a@, b@),
{
    bytes_less(a.as_bytes(), b.as_bytes())
}

/// Inserting a new name at the place where it sorts keeps the entries sorted
/// and adds the name to the map.
pub proof fn lemma_insert_sorted(
    h: Seq<(Seq<char>, Seq<char>)>,
    pos: int,
    k: Seq<char>,
    v: Seq<char>,
)
    requires
        names_sorted(h),
        0 <= pos <= h.len(),
        forall|j: int| 0 <= j < pos ==> name_lt(#[trigger] h[j].0, k),
        pos < h.len() ==> name_lt(k, h[pos].0),
    ensures
        names_sorted(h.insert(pos, (k, v))),
        as_map(h.insert(pos, (k, v))) == as_map(h).insert(k, v),
{
    let g = h.insert(pos, (k, v));
    assert forall|i: int, j: int| 0 <= i < j < g.len() implies name_lt(#[trigger] g[i].0, #[trigger] g[j].0) by {
        if j < pos {
            assert(g[i] == h[i] && g[j] == h[j]);
        } else if j == pos {
            assert(g[i] == h[i]);
        } else if i < pos {
            assert(g[i] == h[i] && g[j] == h[j - 1]);
            if pos < j - 1 {
                assert(name_lt(h[pos].0, h[j - 1].0));
                lemma_name_lt_transitive(k, h[pos].0, h[j - 1].0);
            }
            lemma_name_lt_transitive(h[i].0, k, h[j - 1].0);
        } else if i == pos {
            assert(g[j] == h[j - 1]);
            if pos < j - 1 {
                assert(name_lt(h[pos].0, h[j - 1].0));
                lemma_name_lt_transitive(k, h[pos].0, h[j - 1].0);
            }
        } else {
            assert(g[i] == h[i - 1] && g[j] == h[j - 1]);
        }
    }
    assert forall|n: Seq<char>| #[trigger] has_name(g, n) == (has_name(h, n) || n == k) by {
        if has_name(g, n) {
            let i = index_of(g, n);
            if i > pos {
                assert(h[i - 1].0 == n);
            } else if i < pos {
                assert(h[i].0 == n);
            }
        }
        if has_name(h, n) {
            let j = index_of(h, n);
            if j < pos {
                assert(g[j].0 == n);
            } else {
                assert(g[j + 1].0 == n);
            }
        }
        if n == k {
            assert(g[pos].0 == n);
        }
    }
    assert forall|n: Seq<char>| has_name(g, n) implies #[trigger] value_for(g, n) == (if n == k { v } else { value_for(h, n) }) by {
        if n == k {
            lemma_value_at(g, pos);
        } else {
            let j = index_of(h, n);
            let jj = if j < pos { j } else { j + 1 };
            assert(g[jj] == h[j]);
            lemma_value_at(g, jj);
        }
    }
    assert(as_map(g) =~= as_map(h).insert(k, v));
}

/// Replacing the value of a name that is present keeps the entries sorted
/// and maps the name to the new value.
pub proof fn lemma_update_sorted(
    h: Seq<(Seq<char>, Seq<char>)>,
    pos: int,
    k: Seq<char>,
    v: Seq<char>,
)
    requires
        names_sorted(h),
        0 <= pos < h.len(),
        h[pos].0 == k,
    ensures
        names_sorted(h.update(pos, (k, v))),
        as_map(h.update(pos, (k, v))) == as_map(h).insert(k, v),
{
    let g = h.update(pos, (k, v));
    assert forall|i: int, j: int| 0 <= i < j < g.len() implies name_lt(#[trigger] g[i].0, #[trigger] g[j].0) by {
        assert(g[i].0 == h[i].0 && g[j].0 == h[j].0);
    }
    assert forall|n: Seq<char>| #[trigger] has_name(g, n) == (has_name(h, n) || n == k) by {
        if has_name(g, n) {
            let i = index_of(g, n);
            assert(h[i].0 == n);
        }
        if has_name(h, n) {
            let j = index_of(h, n);
            assert(g[j].0 == n);
        }
        if n == k {
            assert(g[pos].0 == n);
        }
    }
    assert forall|n: Seq<char>| has_name(g, n) implies #[trigger] value_for(g, n) == (if n == k { v } else { value_for(h, n) }) by {
        if n == k {
            lemma_value_at(g, pos);
        } else {
            let j = index_of(h, n);
            assert(g[j] == h[j]);
            lemma_value_at(g, j);
        }
    }
    assert(as_map(g) =~= as_map(h).insert(k, v));
}

/// Dropping the first entry of sorted entries keeps them sorted and removes
/// that entry's name from the map.
pub proof fn lemma_drop_first_sorted(h: Seq<(Seq<char>, Seq<char>)>)
    requires
        names_sorted(h),
        h.len() > 0,
    ensures
        names_sorted(h.drop_first()),
        as_map(h.drop_first()) == as_map(h).remove(h[0].0),
{
    let t = h.drop_first();
    assert forall|i: int, j: int| 0 <= i < j < t.len() implies name_lt(#[trigger] t[i].0, #[trigger] t[j].0) by {
        assert(t[i] == h[i + 1] && t[j] == h[j + 1]);
    }
    assert forall|n: Seq<char>| #[trigger] has_name(t, n) == (has_name(h, n) && n != h[0].0) by {
        if has_name(t, n) {
            let i = index_of(t, n);
            assert(h[i + 1].0 == n);
            if n == h[0].0 {
                lemma_sorted_names_unique(h, 0, i + 1);
            }
        }
        if has_name(h, n) && n != h[0].0 {
            let i = index_of(h, n);
            assert(t[i - 1].0 == n);
        }
    }
    assert forall|n: Seq<char>| has_name(t, n) implies #[trigger] value_for(t, n) == value_for(h, n) by {
        let i = index_of(t, n);
        assert(t[i] == h[i + 1]);
        lemma_value_at(t, i);
        lemma_value_at(h, i + 1);
    }
    assert(as_map(t) =~= as_map(h).remove(h[0].0));
}

/// Sorted entries are determined by the map they hold: two sorted header
/// lists that map the same names to the same values are the same list.
pub proof fn sorted_entries_are_determined_by_map(
    a: Seq<(Seq<char>, Seq<char>)>,
    b: Seq<(Seq<char>, Seq<char>)>,
)
    requires
        names_sorted(a),
        names_sorted(b),
        as_map(a) == as_map(b),
    ensures
        a == b,
    decreases a.len(),
{
    if a.len() == 0 || b.len() == 0 {
        if a.len() > 0 {
            assert(has_name(a, a[0].0));
            assert(as_map(a).contains_key(a[0].0));
        }
        if b.len() > 0 {
            assert(has_name(b, b[0].0));
            assert(as_map(b).contains_key(b[0].0));
        }
        assert(a =~= b);
    } else {
        let k = a[0].0;
        let m = b[0].0;
        assert(has_name(a, k));
        assert(has_name(b, m));
        assert(as_map(a).contains_key(k) && as_map(b).contains_key(m));
        let j = index_of(b, k);
        let i = index_of(a, m);
        lemma_name_order(k, m);
        if j > 0 {
            assert(name_lt(b[0].0, b[j].0));
            if i > 0 {
                assert(name_lt(a[0].0, a[i].0));
            }
        }
        assert(j == 0);
        lemma_value_at(a, 0);
        lemma_value_at(b, 0);
        assert(as_map(a)[k] == as_map(b)[k]);
        assert(a[0] == b[0]);
        lemma_drop_first_sorted(a);
        lemma_drop_first_sorted(b);
        sorted_entries_are_determined_by_map(a.drop_first(), b.drop_first());
        assert(a =~= seq![a[0]] + a.drop_first());
        assert(b =~= seq![b[0]] + b.drop_first());
    }
}

/// Reading a header after setting it gives the value set, and every other
/// header reads as before.
pub proof fn header_read_after_write(
    h: Seq<(Seq<char>, Seq<char>)>,
    g: Seq<(Seq<char>, Seq<char>)>,
    k: Seq<char>,
    v: Seq<char>,
    other: Seq<char>,
)
    requires
        as_map(g) == as_map(h).insert(k, v),
    ensures
        as_map(g).contains_key(k),
        as_map(g)[k] == v,
        other != k ==> as_map(g).contains_key(other) == as_map(h).contains_key(other),
        other != k && as_map(h).contains_key(other) ==> as_map(g)[other] == as_map(h)[other],
{
}

/// The headers of a response: names mapped to values, kept sorted by name.
///
/// This holds what a `BTreeMap<String, String>` would. vstd's specifications
/// of `BTreeMap` hold only when `obeys_cmp::<String>()`, which vstd does not
/// establish, so with `String` keys not even the length after one `insert`
/// can be proved; the map is kept here as a sorted vector instead.
#[derive(Debug, PartialEq, Eq)]
pub struct HeaderMap {
    entries: Vec<(String, String)>,
}

impl View for HeaderMap {
    type V = Seq<(Seq<char>, Seq<char>)>;

    closed spec fn view(&self) -> Seq<(Seq<char>, Seq<char>)> {
        self.entries@.map_values(|e: (String, String)| (e.0@, e.1@))
    }
}

impl HeaderMap {
    /// Every header map keeps its entries strictly increasing by name.
    #[verifier::type_invariant]
    pub open spec fn is_sorted(self) -> bool {
        names_sorted(self@)
    }

    /// An empty header map.
    pub fn new() -> (m: Self)
        ensures
            m@ == Seq::<(Seq<char>, Seq<char>)>::empty(),
    {
        let m = HeaderMap { entries: Vec::new() };
        assert(m@ =~= Seq::<(Seq<char>, Seq<char>)>::empty());
        m
    }

    /// Number of headers.
    pub fn len(&self) -> (n: usize)
        ensures
            n == self@.len(),
    {
        self.entries.len()
    }

    /// Whether there are no headers.
    pub fn is_empty(&self) -> (b: bool)
        ensures
            b == (self@.len() == 0),
    {
        self.entries.len() == 0
    }

    /// The name of the `i`-th header in name order.
    pub fn name(&self, i: usize) -> (s: &String)
        requires
            i < self@.len(),
        ensures
            s@ == self@[i as int].0,
    {
        &self.entries[i].0
    }

    /// The value of the `i`-th header in name order.
    pub fn value(&self, i: usize) -> (s: &String)
        requires
            i < self@.len(),
        ensures
            s@ == self@[i as int].1,
    {
        &self.entries[i].1
    }

    /// Where `key` stands or would stand: the index of the first entry whose
    /// name is not below `key`, and whether that entry has the name `key`.
    fn position(&self, key: &str) -> (r: (usize, bool))
        ensures
            r.0 <= self@.len(),
            forall|j: int| 0 <= j < r.0 ==> name_lt(#[trigger] self@[j].0, key@),
            r.1 ==> r.0 < self@.len() && self@[r.0 as int].0 == key@,
            !r.1 && r.0 < self@.len() ==> name_lt(key@, self@[r.0 as int].0),
    {
        let mut i: usize = 0;
        while i < self.entries.len()
            invariant
                i <= self@.len(),
                self@.len() == self.entries@.len(),
                forall|j: int| 0 <= j < i ==> name_lt(#[trigger] self@[j].0, key@),
            decreases self.entries@.len() - i,
        {
            let name = self.entries[i].0.as_str();
            assert(name@ == self@[i as int].0);
            if name_less(name, key) {
                i = i + 1;
            } else if str_equal(name, key) {
                return (i, true);
            } else {
                proof {
                    lemma_name_order(name@, key@);
                }
                return (i, false);
            }
        }
        (i, false)
    }

    /// The value of the header `key`, if there is one.
    pub fn get(&self, key: &str) -> (r: Option<&String>)
        ensures
            r is Some == as_map(self@).contains_key(key@),
            r matches Some(v) ==> v@ == as_map(self@)[key@],
    {
        proof {
            use_type_invariant(self);
        }
        let (pos, found) = self.position(key);
        if found {
            proof {
                lemma_value_at(self@, pos as int);
            }
            Some(&self.entries[pos].1)
        } else {
            proof {
                if has_name(self@, key@) {
                    let j = index_of(self@, key@);
                    lemma_name_order(key@, key@);
                    if j < pos {
                        assert(name_lt(self@[j].0, key@));
                    } else if j > pos {
                        assert(name_lt(self@[pos as int].0, self@[j].0));
                        lemma_name_lt_transitive(key@, self@[pos as int].0, self@[j].0);
                    }
                }
            }
            None
        }
    }

    /// Whether there is a header `key`.
    pub fn contains_key(&self, key: &str) -> (b: bool)
        ensures
            b == as_map(self@).contains_key(key@),
    {
        self.get(key).is_some()
    }

    /// Set the header `key` to `value`, replacing any earlier value.
    pub fn insert(&mut self, key: String, value: String)
        ensures
            names_sorted(final(self)@),
            as_map(final(self)@) == as_map(old(self)@).insert(key@, value@),
    {
        proof {
            use_type_invariant(&*self);
        }
        let (pos, found) = self.position(key.as_str());
        let ghost h = self@;
        let ghost k = key@;
        let ghost v = value@;
        let mut entries: Vec<(String, String)> = Vec::new();
        std::mem::swap(&mut entries, &mut self.entries);
        let ghost before = entries@;
        assert(h == before.map_values(|e: (String, String)| (e.0@, e.1@)));
        if found {
            entries.set(pos, (key, value));
            assert(entries@.map_values(|e: (String, String)| (e.0@, e.1@))
                =~= h.update(pos as int, (k, v)));
            proof {
                lemma_update_sorted(h, pos as int, k, v);
            }
        } else {
            entries.insert(pos, (key, value));
            assert(entries@.map_values(|e: (String, String)| (e.0@, e.1@))
                =~= h.insert(pos as int, (k, v)));
            proof {
                lemma_insert_sorted(h, pos as int, k, v);
            }
        }
        self.entries = entries;
    }
}

impl Clone for HeaderMap {
    fn clone(&self) -> (c: Self)
        ensures
            c@ == self@,
    {
        proof {
            use_type_invariant(self);
        }
        let mut entries: Vec<(String, String)> = Vec::new();
        let mut i: usize = 0;
        while i < self.entries.len()
            invariant
                i <= self.entries@.len(),
                entries@.len() == i,
                forall|j: int| 0 <= j < i ==> (#[trigger] entries@[j]).0@ == self.entries@[j].0@
                    && entries@[j].1@ == self.entries@[j].1@,
            decreases self.entries@.len() - i,
        {
            let name = self.entries[i].0.clone();
            let value = self.entries[i].1.clone();
            entries.push((name, value));
            i = i + 1;
        }
        assert(entries@.map_values(|e: (String, String)| (e.0@, e.1@)) =~= self@);
        HeaderMap { entries }
    }
}

} // verus!
