//! Structured response diff.

use vstd::prelude::*;

use crate::backend::ResponseRecord;
use crate::config::{IgnoreField, ShadowConfig};
use crate::headers::{
    as_map, bytes_equal, has_name, index_of, lemma_sorted_names_unique, lemma_value_at, name_lt,
    names_sorted, str_equal, value_for, HeaderMap,
};

verus! {

/// Differences between two response header maps.
#[derive(Debug, PartialEq, Eq)]
pub struct HeaderDiff {
    /// Headers present in the shadow but not the primary.
    pub added: Vec<String>,
    /// Headers present in the primary but not the shadow.
    pub removed: Vec<String>,
    /// Headers present in both but with different values.
    pub changed: Vec<String>,
}

/// Differences between two response bodies.
#[derive(Clone, Copy, Debug, PartialEq, Eq, Structural)]
pub struct BodyDiff {
    /// Byte length of the primary body.
    pub primary_len: usize,
    /// Byte length of the shadow body.
    pub shadow_len: usize,
    /// Number of leading bytes that match exactly.
    pub prefix_equal_bytes: usize,
}

/// Per-field divergence summary. None = no diff or field was ignored.
#[derive(Debug, PartialEq, Eq)]
pub struct Divergence {
    /// `Some((primary, shadow))` when the status codes differ.
    pub status: Option<(u16, u16)>,
    /// The header names added, removed and changed, when the headers differ.
    pub headers: Option<HeaderDiff>,
    /// Lengths and shared prefix, when the bodies differ.
    pub body: Option<BodyDiff>,
}

/// A header diff as sequences of names.
pub struct HeaderDiffView {
    pub added: Seq<Seq<char>>,
    pub removed: Seq<Seq<char>>,
    pub changed: Seq<Seq<char>>,
}

/// A divergence with its header names as sequences of characters.
pub struct DivergenceView {
    pub status: Option<(u16, u16)>,
    pub headers: Option<HeaderDiffView>,
    pub body: Option<BodyDiff>,
}

/// The names held by a list of strings.
pub open spec fn names_of(v: Seq<String>) -> Seq<Seq<char>> {
    v.map_values(|s: String| s@)
}

impl View for HeaderDiff {
    type V = HeaderDiffView;

    open spec fn view(&self) -> HeaderDiffView {
        HeaderDiffView {
            added: names_of(self.added@),
            removed: names_of(self.removed@),
            changed: names_of(self.changed@),
        }
    }
}

impl View for Divergence {
    type V = DivergenceView;

    open spec fn view(&self) -> DivergenceView {
        DivergenceView {
            status: self.status,
            headers: match self.headers {
                Some(h) => Some(h@),
                None => None,
            },
            body: self.body,
        }
    }
}

/// The view of an optional divergence.
pub open spec fn opt_view(d: Option<Divergence>) -> Option<DivergenceView> {
    match d {
        Some(d) => Some(d@),
        None => None,
    }
}

/// The names of `a`, in order, that `b` lacks.
pub open spec fn missing_names(a: Seq<(Seq<char>, Seq<char>)>, b: Seq<(Seq<char>, Seq<char>)>) -> Seq<
    Seq<char>,
>
    decreases a.len(),
{
    if a.len() == 0 {
        Seq::empty()
    } else {
        let rest = missing_names(a.drop_last(), b);
        if has_name(b, a.last().0) {
            rest
        } else {
            rest.push(a.last().0)
        }
    }
}

/// The names of `a`, in order, that `b` has with a different value.
pub open spec fn changed_names(a: Seq<(Seq<char>, Seq<char>)>, b: Seq<(Seq<char>, Seq<char>)>) -> Seq<
    Seq<char>,
>
    decreases a.len(),
{
    if a.len() == 0 {
        Seq::empty()
    } else {
        let rest = changed_names(a.drop_last(), b);
        if has_name(b, a.last().0) && value_for(b, a.last().0) != a.last().1 {
            rest.push(a.last().0)
        } else {
            rest
        }
    }
}

/// The header diff of primary headers `p` and shadow headers `s`: `None`
/// when no name is added, removed or changed.
pub open spec fn header_diff_of(p: Seq<(Seq<char>, Seq<char>)>, s: Seq<(Seq<char>, Seq<char>)>) -> Option<
    HeaderDiffView,
> {
    let added = missing_names(s, p);
    let removed = missing_names(p, s);
    let changed = changed_names(p, s);
    if added.len() == 0 && removed.len() == 0 && changed.len() == 0 {
        None
    } else {
        Some(HeaderDiffView { added, removed, changed })
    }
}

/// The number of leading bytes on which `a` and `b` agree.
pub open spec fn common_prefix_len(a: Seq<u8>, b: Seq<u8>) -> nat
    decreases a.len(),
{
    if a.len() == 0 || b.len() == 0 || a[0] != b[0] {
        0
    } else {
        1 + common_prefix_len(a.drop_first(), b.drop_first())
    }
}

/// The divergence of a primary and a shadow response, with the fields in
/// `ignored` left out: `None` when every diffed field matches.
pub open spec fn divergence_of(p: ResponseRecord, s: ResponseRecord, ignored: Seq<IgnoreField>) -> Option<
    DivergenceView,
> {
    let status = if ignored.contains(IgnoreField::Status) || p.status == s.status {
        None
    } else {
        Some((p.status, s.status))
    };
    let headers = if ignored.contains(IgnoreField::Headers) {
        None
    } else {
        header_diff_of(p.headers@, s.headers@)
    };
    let body = if ignored.contains(IgnoreField::Body) || p.body@ == s.body@ {
        None
    } else {
        Some(
            BodyDiff {
                primary_len: p.body@.len() as usize,
                shadow_len: s.body@.len() as usize,
                prefix_equal_bytes: common_prefix_len(p.body@, s.body@) as usize,
            },
        )
    };
    if status is None && headers is None && body is None {
        None
    } else {
        Some(DivergenceView { status, headers, body })
    }
}

/// The number of leading bytes on which `a` and `b` agree.
pub fn shared_prefix(a: &[u8], b: &[u8]) -> (n: usize)
    ensures
        n == common_prefix_len(a@, b@),
        n <= a@.len(),
        n <= b@.len(),
        forall|i: int| 0 <= i < n ==> a@[i] == b@[i],
        n < a@.len() && n < b@.len() ==> a@[n as int] != b@[n as int],
{
    proof {
        common_prefix_len_is_longest(a@, b@);
    }
    let mut i: usize = 0;
    assert(a@.skip(0) =~= a@);
    assert(b@.skip(0) =~= b@);
    while i < a.len() && i < b.len() && a[i] == b[i]
        invariant
            i <= a@.len(),
            i <= b@.len(),
            common_prefix_len(a@, b@) == i + common_prefix_len(a@.skip(i as int), b@.skip(i as int)),
        decreases a@.len() - i,
    {
        assert(a@.skip(i as int).drop_first() =~= a@.skip(i + 1));
        assert(b@.skip(i as int).drop_first() =~= b@.skip(i + 1));
        i = i + 1;
    }
    i
}

/// Clone a list of names.
fn clone_names(v: &Vec<String>) -> (c: Vec<String>)
    ensures
        names_of(c@) == names_of(v@),
{
    let mut c: Vec<String> = Vec::new();
    let mut i: usize = 0;
    while i < v.len()
        invariant
            i <= v@.len(),
            c@.len() == i,
            forall|j: int| 0 <= j < i ==> (#[trigger] c@[j])@ == v@[j]@,
        decreases v@.len() - i,
    {
        c.push(v[i].clone());
        i = i + 1;
    }
    assert(names_of(c@) =~= names_of(v@));
    c
}

impl Clone for HeaderDiff {
    fn clone(&self) -> (c: Self)
        ensures
            c@ == self@,
    {
        HeaderDiff {
            added: clone_names(&self.added),
            removed: clone_names(&self.removed),
            changed: clone_names(&self.changed),
        }
    }
}

impl Clone for Divergence {
    fn clone(&self) -> (c: Self)
        ensures
            c@ == self@,
    {
        let headers = match &self.headers {
            Some(h) => Some(h.clone()),
            None => None,
        };
        Divergence { status: self.status, headers, body: self.body }
    }
}

impl Divergence {
    /// Compute a `Divergence` from two records given the config's ignore list.
    /// Returns `None` when every diffed field matches.
    pub fn compare(primary: &ResponseRecord, shadow: &ResponseRecord, config: &ShadowConfig) -> (d:
        Option<Self>)
        ensures
            opt_view(d) == divergence_of(*primary, *shadow, config.ignored()),
            !config.ignored().contains(IgnoreField::Body) && primary.body@ != shadow.body@ ==> (d matches Some(
                x,
            ) && x.body is Some),
            config.ignored().contains(IgnoreField::Body) || primary.body@ == shadow.body@ ==> (d matches Some(
                x,
            ) ==> x.body is None),
            d matches Some(x) ==> (x.body matches Some(b) ==> {
                &&& b.primary_len == primary.body@.len()
                &&& b.shadow_len == shadow.body@.len()
                &&& b.prefix_equal_bytes <= primary.body@.len()
                &&& b.prefix_equal_bytes <= shadow.body@.len()
                &&& forall|i: int|
                    0 <= i < b.prefix_equal_bytes ==> primary.body@[i] == shadow.body@[i]
                &&& b.prefix_equal_bytes < primary.body@.len() && b.prefix_equal_bytes
                    < shadow.body@.len() ==> primary.body@[b.prefix_equal_bytes as int]
                    != shadow.body@[b.prefix_equal_bytes as int]
            }),
            !config.ignored().contains(IgnoreField::Status) && primary.status != shadow.status ==> (
            d matches Some(x) && x.status == Some((primary.status, shadow.status))),
            config.ignored().contains(IgnoreField::Status) || primary.status == shadow.status ==> (
            d matches Some(x) ==> x.status is None),
            !config.ignored().contains(IgnoreField::Headers) && as_map(primary.headers@) != as_map(
                shadow.headers@,
            ) ==> (d matches Some(x) && x.headers is Some),
            config.ignored().contains(IgnoreField::Headers) || as_map(primary.headers@) == as_map(
                shadow.headers@,
            ) ==> (d matches Some(x) ==> x.headers is None),
            d matches Some(x) ==> (x.headers matches Some(h) ==> {
                &&& names_increasing(names_of(h.added@))
                &&& names_increasing(names_of(h.removed@))
                &&& names_increasing(names_of(h.changed@))
                &&& forall|k: Seq<char>| #[trigger]
                    names_of(h.added@).contains(k) == (has_name(shadow.headers@, k) && !has_name(
                        primary.headers@,
                        k,
                    ))
                &&& forall|k: Seq<char>| #[trigger]
                    names_of(h.removed@).contains(k) == (has_name(primary.headers@, k) && !has_name(
                        shadow.headers@,
                        k,
                    ))
                &&& forall|k: Seq<char>| #[trigger]
                    names_of(h.changed@).contains(k) == (has_name(primary.headers@, k) && has_name(
                        shadow.headers@,
                        k,
                    ) && value_for(primary.headers@, k) != value_for(shadow.headers@, k))
            }),
    {
        proof {
            use_type_invariant(&primary.headers);
            use_type_invariant(&shadow.headers);
            body_diff_reports_lengths_and_longest_prefix(*primary, *shadow, config.ignored());
            status_diff_reports_both_codes(*primary, *shadow, config.ignored());
            header_diff_reports_names(*primary, *shadow, config.ignored());
        }
        let status = if config.ignores(IgnoreField::Status) || primary.status == shadow.status {
            None
        } else {
            Some((primary.status, shadow.status))
        };

        let headers = if config.ignores(IgnoreField::Headers) {
            None
        } else {
            Self::diff_headers(primary, shadow)
        };

        let body = if config.ignores(IgnoreField::Body) || bytes_equal(
            primary.body.as_slice(),
            shadow.body.as_slice(),
        ) {
            None
        } else {
            Some(
                BodyDiff {
                    primary_len: primary.body.len(),
                    shadow_len: shadow.body.len(),
                    prefix_equal_bytes: shared_prefix(primary.body.as_slice(), shadow.body.as_slice()),
                },
            )
        };

        if status.is_none() && headers.is_none() && body.is_none() {
            None
        } else {
            Some(Self { status, headers, body })
        }
    }

    /// The names of `a`, in order, that `b` lacks.
    fn missing(a: &HeaderMap, b: &HeaderMap) -> (v: Vec<String>)
        ensures
            names_of(v@) == missing_names(a@, b@),
    {
        let mut v: Vec<String> = Vec::new();
        let mut i: usize = 0;
        while i < a.len()
            invariant
                i <= a@.len(),
                names_of(v@) == missing_names(a@.take(i as int), b@),
            decreases a@.len() - i,
        {
            let name = a.name(i);
            assert(a@.take(i + 1).drop_last() =~= a@.take(i as int));
            if !b.contains_key(name.as_str()) {
                v.push(name.clone());
            }
            assert(names_of(v@) =~= missing_names(a@.take(i + 1), b@));
            i = i + 1;
        }
        assert(a@.take(i as int) =~= a@);
        v
    }

    /// The names of `a`, in order, that `b` has with a different value.
    fn changed(a: &HeaderMap, b: &HeaderMap) -> (v: Vec<String>)
        ensures
            names_of(v@) == changed_names(a@, b@),
    {
        let mut v: Vec<String> = Vec::new();
        let mut i: usize = 0;
        while i < a.len()
            invariant
                i <= a@.len(),
                names_of(v@) == changed_names(a@.take(i as int), b@),
            decreases a@.len() - i,
        {
            let name = a.name(i);
            assert(a@.take(i + 1).drop_last() =~= a@.take(i as int));
            match b.get(name.as_str()) {
                Some(other) => {
                    if !str_equal(other.as_str(), a.value(i).as_str()) {
                        v.push(name.clone());
                    }
                },
                None => {},
            }
            assert(names_of(v@) =~= changed_names(a@.take(i + 1), b@));
            i = i + 1;
        }
        assert(a@.take(i as int) =~= a@);
        v
    }

    fn diff_headers(primary: &ResponseRecord, shadow: &ResponseRecord) -> (d: Option<HeaderDiff>)
        ensures
            match d {
                Some(h) => header_diff_of(primary.headers@, shadow.headers@) == Some(h@),
                None => header_diff_of(primary.headers@, shadow.headers@) is None,
            },
    {
        let removed = Self::missing(&primary.headers, &shadow.headers);
        let changed = Self::changed(&primary.headers, &shadow.headers);
        let added = Self::missing(&shadow.headers, &primary.headers);
        if added.len() == 0 && removed.len() == 0 && changed.len() == 0 {
            None
        } else {
            Some(HeaderDiff { added, removed, changed })
        }
    }
}

/// The names that `a` has and `b` lacks are exactly those listed by
/// `missing_names(a, b)`.
pub proof fn lemma_missing_names_members(
    a: Seq<(Seq<char>, Seq<char>)>,
    b: Seq<(Seq<char>, Seq<char>)>,
    k: Seq<char>,
)
    ensures
        missing_names(a, b).contains(k) == (has_name(a, k) && !has_name(b, k)),
    decreases a.len(),
{
    if a.len() > 0 {
        let init = a.drop_last();
        lemma_missing_names_members(init, b, k);
        if has_name(a, k) {
            let i = index_of(a, k);
            if i < a.len() - 1 {
                assert(init[i].0 == k);
            }
        }
        if has_name(init, k) {
            let i = index_of(init, k);
            assert(a[i].0 == k);
        }
        if a.last().0 == k && !has_name(b, k) {
            assert(a[a.len() - 1].0 == k);
            assert(missing_names(a, b).last() == k);
            assert(missing_names(a, b)[missing_names(a, b).len() - 1] == k);
        }
        if missing_names(a, b).contains(k) && a.last().0 != k {
            let j = choose|j: int| 0 <= j < missing_names(a, b).len() && missing_names(a, b)[j] == k;
            if !has_name(b, a.last().0) {
                assert(missing_names(init, b)[j] == k);
            }
        }
        if missing_names(init, b).contains(k) {
            let j = choose|j: int| 0 <= j < missing_names(init, b).len() && missing_names(init, b)[j] == k;
            assert(missing_names(a, b)[j] == k);
        }
    }
}

/// The names listed by `changed_names(a, b)` are exactly those that both
/// have, with different values.
pub proof fn lemma_changed_names_members(
    a: Seq<(Seq<char>, Seq<char>)>,
    b: Seq<(Seq<char>, Seq<char>)>,
    k: Seq<char>,
)
    requires
        names_sorted(a),
    ensures
        changed_names(a, b).contains(k) == (has_name(a, k) && has_name(b, k) && value_for(a, k)
            != value_for(b, k)),
    decreases a.len(),
{
    if a.len() > 0 {
        let init = a.drop_last();
        let last = a.len() - 1;
        assert(names_sorted(init)) by {
            assert forall|i: int, j: int| 0 <= i < j < init.len() implies name_lt(
                #[trigger] init[i].0,
                #[trigger] init[j].0,
            ) by {
                assert(init[i] == a[i] && init[j] == a[j]);
            }
        }
        lemma_changed_names_members(init, b, k);
        lemma_value_at(a, last);
        if has_name(init, k) {
            let i = index_of(init, k);
            assert(a[i] == init[i]);
            lemma_value_at(a, i);
            lemma_value_at(init, i);
            if a.last().0 == k {
                lemma_sorted_names_unique(a, i, last);
            }
        }
        if has_name(a, k) && a.last().0 != k {
            let i = index_of(a, k);
            assert(i != last);
            assert(init[i].0 == k);
        }
        let c = changed_names(a, b);
        let ci = changed_names(init, b);
        if ci.contains(k) {
            let j = choose|j: int| 0 <= j < ci.len() && ci[j] == k;
            assert(c[j] == k);
        }
        if c.contains(k) {
            let j = choose|j: int| 0 <= j < c.len() && c[j] == k;
            if j < ci.len() {
                assert(ci[j] == k);
            }
        }
        if a.last().0 == k && has_name(b, k) && value_for(b, k) != a.last().1 {
            assert(c[c.len() - 1] == k);
        }
    }
}

/// What a header diff lists: `added` holds the names only the shadow has,
/// `removed` the names only the primary has, and `changed` the names both
/// have with different values.
pub proof fn header_diff_lists(
    p: Seq<(Seq<char>, Seq<char>)>,
    s: Seq<(Seq<char>, Seq<char>)>,
    k: Seq<char>,
)
    requires
        names_sorted(p),
        names_sorted(s),
    ensures
        header_diff_of(p, s) matches Some(h) ==> {
            &&& h.added.contains(k) == (has_name(s, k) && !has_name(p, k))
            &&& h.removed.contains(k) == (has_name(p, k) && !has_name(s, k))
            &&& h.changed.contains(k) == (has_name(p, k) && has_name(s, k) && value_for(p, k)
                != value_for(s, k))
        },
        header_diff_of(p, s) is None == (as_map(p) == as_map(s)),
{
    lemma_missing_names_members(s, p, k);
    lemma_missing_names_members(p, s, k);
    lemma_changed_names_members(p, s, k);
    let added = missing_names(s, p);
    let removed = missing_names(p, s);
    let changed = changed_names(p, s);
    if as_map(p) == as_map(s) {
        assert forall|n: Seq<char>| !added.contains(n) && !removed.contains(n) && !changed.contains(
            n,
        ) by {
            lemma_missing_names_members(s, p, n);
            lemma_missing_names_members(p, s, n);
            lemma_changed_names_members(p, s, n);
            assert(as_map(p).contains_key(n) == as_map(s).contains_key(n));
            if has_name(p, n) {
                assert(as_map(p)[n] == as_map(s)[n]);
            }
        }
        if added.len() > 0 {
            assert(added.contains(added[0]));
        }
        if removed.len() > 0 {
            assert(removed.contains(removed[0]));
        }
        if changed.len() > 0 {
            assert(changed.contains(changed[0]));
        }
    }
    if added.len() == 0 && removed.len() == 0 && changed.len() == 0 {
        assert forall|n: Seq<char>| #[trigger] as_map(p).contains_key(n) == as_map(s).contains_key(n)
            && (as_map(p).contains_key(n) ==> as_map(p)[n] == as_map(s)[n]) by {
            lemma_missing_names_members(s, p, n);
            lemma_missing_names_members(p, s, n);
            lemma_changed_names_members(p, s, n);
        }
        assert(as_map(p) =~= as_map(s));
    }
}

/// `common_prefix_len(a, b)` is the length of the longest common prefix: the
/// first that many bytes agree, and the next byte (if both have one) differs.
pub proof fn common_prefix_len_is_longest(a: Seq<u8>, b: Seq<u8>)
    ensures
        common_prefix_len(a, b) <= a.len(),
        common_prefix_len(a, b) <= b.len(),
        forall|i: int| 0 <= i < common_prefix_len(a, b) ==> a[i] == b[i],
        common_prefix_len(a, b) < a.len() && common_prefix_len(a, b) < b.len() ==> a[common_prefix_len(
            a,
            b,
        ) as int] != b[common_prefix_len(a, b) as int],
    decreases a.len(),
{
    if a.len() > 0 && b.len() > 0 && a[0] == b[0] {
        common_prefix_len_is_longest(a.drop_first(), b.drop_first());
        assert forall|i: int| 0 <= i < common_prefix_len(a, b) implies a[i] == b[i] by {
            if i > 0 {
                assert(a[i] == a.drop_first()[i - 1]);
                assert(b[i] == b.drop_first()[i - 1]);
            }
        }
    }
}

/// The shared prefix does not depend on which body comes first.
pub proof fn common_prefix_len_symmetric(a: Seq<u8>, b: Seq<u8>)
    ensures
        common_prefix_len(a, b) == common_prefix_len(b, a),
    decreases a.len(),
{
    if a.len() > 0 && b.len() > 0 && a[0] == b[0] {
        common_prefix_len_symmetric(a.drop_first(), b.drop_first());
    }
}

/// Each piece of a divergence is `None` exactly when that aspect matches or
/// is ignored, and the divergence is `None` exactly when every piece is.
pub proof fn divergence_pieces(p: ResponseRecord, s: ResponseRecord, ignored: Seq<IgnoreField>)
    requires
        names_sorted(p.headers@),
        names_sorted(s.headers@),
    ensures
        ({
            let status_same = ignored.contains(IgnoreField::Status) || p.status == s.status;
            let headers_same = ignored.contains(IgnoreField::Headers) || as_map(p.headers@) == as_map(
                s.headers@,
            );
            let body_same = ignored.contains(IgnoreField::Body) || p.body@ == s.body@;
            &&& divergence_of(p, s, ignored) is None == (status_same && headers_same && body_same)
            &&& divergence_of(p, s, ignored) matches Some(d) ==> {
                &&& d.status is None == status_same
                &&& d.headers is None == headers_same
                &&& d.body is None == body_same
            }
        }),
{
    header_diff_lists(p.headers@, s.headers@, Seq::empty());
}

/// The body piece of a divergence: present exactly when the bodies differ and
/// the body is not ignored, and then it holds the two byte lengths and the
/// length of the longest common prefix — the leading bytes that agree, up to
/// the first byte that differs or the end of the shorter body.
pub proof fn body_diff_reports_lengths_and_longest_prefix(
    p: ResponseRecord,
    s: ResponseRecord,
    ignored: Seq<IgnoreField>,
)
    ensures
        !ignored.contains(IgnoreField::Body) && p.body@ != s.body@ ==> (divergence_of(
            p,
            s,
            ignored,
        ) matches Some(d) && d.body is Some),
        ignored.contains(IgnoreField::Body) || p.body@ == s.body@ ==> (divergence_of(
            p,
            s,
            ignored,
        ) matches Some(d) ==> d.body is None),
        divergence_of(p, s, ignored) matches Some(d) ==> (d.body matches Some(b) ==> {
            &&& b.primary_len == p.body@.len()
            &&& b.shadow_len == s.body@.len()
            &&& b.prefix_equal_bytes <= p.body@.len()
            &&& b.prefix_equal_bytes <= s.body@.len()
            &&& forall|i: int| 0 <= i < b.prefix_equal_bytes ==> p.body@[i] == s.body@[i]
            &&& b.prefix_equal_bytes < p.body@.len() && b.prefix_equal_bytes < s.body@.len()
                ==> p.body@[b.prefix_equal_bytes as int] != s.body@[b.prefix_equal_bytes as int]
        }),
{
    assert(p.body.len() == p.body@.len());
    assert(s.body.len() == s.body@.len());
    common_prefix_len_is_longest(p.body@, s.body@);
}

/// A response never diverges from itself.
pub proof fn no_divergence_from_itself(r: ResponseRecord, ignored: Seq<IgnoreField>)
    requires
        names_sorted(r.headers@),
    ensures
        divergence_of(r, r, ignored) is None,
{
    header_diff_lists(r.headers@, r.headers@, Seq::empty());
}

/// A list of names strictly increasing in name order.
pub open spec fn names_increasing(q: Seq<Seq<char>>) -> bool {
    forall|i: int, j: int| 0 <= i < j < q.len() ==> name_lt(#[trigger] q[i], #[trigger] q[j])
}

/// The names that changed come in the order of `a`, so increasing when `a`
/// is sorted.
pub proof fn lemma_changed_names_increasing(
    a: Seq<(Seq<char>, Seq<char>)>,
    b: Seq<(Seq<char>, Seq<char>)>,
)
    requires
        names_sorted(a),
    ensures
        names_increasing(changed_names(a, b)),
    decreases a.len(),
{
    if a.len() > 0 {
        let init = a.drop_last();
        let last = a.len() - 1;
        assert(names_sorted(init)) by {
            assert forall|i: int, j: int| 0 <= i < j < init.len() implies name_lt(
                #[trigger] init[i].0,
                #[trigger] init[j].0,
            ) by {
                assert(init[i] == a[i] && init[j] == a[j]);
            }
        }
        lemma_changed_names_increasing(init, b);
        let c = changed_names(a, b);
        let ci = changed_names(init, b);
        assert forall|i: int| 0 <= i < ci.len() implies name_lt(#[trigger] ci[i], a[last].0) by {
            assert(ci.contains(ci[i]));
            lemma_changed_names_members(init, b, ci[i]);
            let j = index_of(init, ci[i]);
            assert(a[j] == init[j]);
        }
        assert forall|i: int, j: int| 0 <= i < j < c.len() implies name_lt(#[trigger] c[i], #[trigger] c[j]) by {
            if j < ci.len() {
                assert(c[i] == ci[i] && c[j] == ci[j]);
            } else {
                assert(c[i] == ci[i]);
            }
        }
    }
}

/// Two increasing lists of names with the same members are the same list.
pub proof fn lemma_increasing_same_members(q: Seq<Seq<char>>, r: Seq<Seq<char>>)
    requires
        names_increasing(q),
        names_increasing(r),
        forall|k: Seq<char>| #[trigger] q.contains(k) == r.contains(k),
    ensures
        q == r,
    decreases q.len(),
{
    if q.len() == 0 || r.len() == 0 {
        if q.len() > 0 {
            assert(q.contains(q[0]));
        }
        if r.len() > 0 {
            assert(r.contains(r[0]));
            assert(q.contains(r[0]) == r.contains(r[0]));
        }
        assert(q =~= r);
    } else {
        assert(q.contains(q[0]) && r.contains(r[0]));
        assert(q.contains(r[0]) == r.contains(r[0]));
        assert(r.contains(q[0]));
        let j = choose|j: int| 0 <= j < r.len() && r[j] == q[0];
        let i = choose|i: int| 0 <= i < q.len() && q[i] == r[0];
        crate::headers::lemma_name_order(q[0], r[0]);
        if j > 0 {
            assert(name_lt(r[0], r[j]));
            if i > 0 {
                assert(name_lt(q[0], q[i]));
            }
        }
        assert(q[0] == r[0]);
        let qt = q.drop_first();
        let rt = r.drop_first();
        assert forall|k: Seq<char>| #[trigger] qt.contains(k) == rt.contains(k) by {
            if qt.contains(k) {
                let a = choose|a: int| 0 <= a < qt.len() && qt[a] == k;
                assert(q[a + 1] == k);
                assert(q.contains(k));
                assert(r.contains(k));
                assert(name_lt(q[0], q[a + 1]));
                crate::headers::lemma_name_order(k, k);
                let b = choose|b: int| 0 <= b < r.len() && r[b] == k;
                if b == 0 {
                    assert(false);
                }
                assert(rt[b - 1] == k);
            }
            if rt.contains(k) {
                let a = choose|a: int| 0 <= a < rt.len() && rt[a] == k;
                assert(r[a + 1] == k);
                assert(r.contains(k));
                assert(q.contains(k) == r.contains(k));
                assert(name_lt(r[0], r[a + 1]));
                crate::headers::lemma_name_order(k, k);
                let b = choose|b: int| 0 <= b < q.len() && q[b] == k;
                if b == 0 {
                    assert(false);
                }
                assert(qt[b - 1] == k);
            }
        }
        assert forall|x: int, y: int| 0 <= x < y < qt.len() implies name_lt(#[trigger] qt[x], #[trigger] qt[y]) by {
            assert(qt[x] == q[x + 1] && qt[y] == q[y + 1]);
        }
        assert forall|x: int, y: int| 0 <= x < y < rt.len() implies name_lt(#[trigger] rt[x], #[trigger] rt[y]) by {
            assert(rt[x] == r[x + 1] && rt[y] == r[y + 1]);
        }
        lemma_increasing_same_members(qt, rt);
        assert(q =~= seq![q[0]] + qt);
        assert(r =~= seq![r[0]] + rt);
    }
}

/// The names that `a` has and `b` lacks come in the order of `a`, so
/// increasing when `a` is sorted.
pub proof fn lemma_missing_names_increasing(
    a: Seq<(Seq<char>, Seq<char>)>,
    b: Seq<(Seq<char>, Seq<char>)>,
)
    requires
        names_sorted(a),
    ensures
        names_increasing(missing_names(a, b)),
    decreases a.len(),
{
    if a.len() > 0 {
        let init = a.drop_last();
        let last = a.len() - 1;
        assert(names_sorted(init)) by {
            assert forall|i: int, j: int| 0 <= i < j < init.len() implies name_lt(
                #[trigger] init[i].0,
                #[trigger] init[j].0,
            ) by {
                assert(init[i] == a[i] && init[j] == a[j]);
            }
        }
        lemma_missing_names_increasing(init, b);
        let c = missing_names(a, b);
        let ci = missing_names(init, b);
        assert forall|i: int| 0 <= i < ci.len() implies name_lt(#[trigger] ci[i], a[last].0) by {
            assert(ci.contains(ci[i]));
            lemma_missing_names_members(init, b, ci[i]);
            let j = index_of(init, ci[i]);
            assert(a[j] == init[j]);
        }
        assert forall|i: int, j: int| 0 <= i < j < c.len() implies name_lt(#[trigger] c[i], #[trigger] c[j]) by {
            if j < ci.len() {
                assert(c[i] == ci[i] && c[j] == ci[j]);
            } else {
                assert(c[i] == ci[i]);
            }
        }
    }
}

/// The status piece of a divergence: present exactly when the status codes
/// differ and the status is not ignored, and then it holds the primary's code
/// and the shadow's code, in that order.
pub proof fn status_diff_reports_both_codes(
    p: ResponseRecord,
    s: ResponseRecord,
    ignored: Seq<IgnoreField>,
)
    ensures
        !ignored.contains(IgnoreField::Status) && p.status != s.status ==> (divergence_of(
            p,
            s,
            ignored,
        ) matches Some(d) && d.status == Some((p.status, s.status))),
        ignored.contains(IgnoreField::Status) || p.status == s.status ==> (divergence_of(
            p,
            s,
            ignored,
        ) matches Some(d) ==> d.status is None),
{
}

/// The header piece of a divergence: present exactly when the headers, read
/// as maps, differ and the headers are not ignored; then `added` lists, in
/// name order, the names only the shadow has, `removed` the names only the
/// primary has, and `changed` the names both have with different values.
pub proof fn header_diff_reports_names(p: ResponseRecord, s: ResponseRecord, ignored: Seq<IgnoreField>)
    requires
        names_sorted(p.headers@),
        names_sorted(s.headers@),
    ensures
        !ignored.contains(IgnoreField::Headers) && as_map(p.headers@) != as_map(s.headers@) ==> (
        divergence_of(p, s, ignored) matches Some(d) && d.headers is Some),
        ignored.contains(IgnoreField::Headers) || as_map(p.headers@) == as_map(s.headers@) ==> (
        divergence_of(p, s, ignored) matches Some(d) ==> d.headers is None),
        divergence_of(p, s, ignored) matches Some(d) ==> (d.headers matches Some(h) ==> {
            &&& names_increasing(h.added)
            &&& names_increasing(h.removed)
            &&& names_increasing(h.changed)
            &&& forall|k: Seq<char>| #[trigger]
                h.added.contains(k) == (has_name(s.headers@, k) && !has_name(p.headers@, k))
            &&& forall|k: Seq<char>| #[trigger]
                h.removed.contains(k) == (has_name(p.headers@, k) && !has_name(s.headers@, k))
            &&& forall|k: Seq<char>| #[trigger]
                h.changed.contains(k) == (has_name(p.headers@, k) && has_name(s.headers@, k)
                    && value_for(p.headers@, k) != value_for(s.headers@, k))
        }),
{
    let ph = p.headers@;
    let sh = s.headers@;
    header_diff_lists(ph, sh, Seq::empty());
    lemma_missing_names_increasing(ph, sh);
    lemma_missing_names_increasing(sh, ph);
    lemma_changed_names_increasing(ph, sh);
    assert forall|k: Seq<char>| #[trigger] missing_names(sh, ph).contains(k) == (has_name(sh, k)
        && !has_name(ph, k)) by {
        lemma_missing_names_members(sh, ph, k);
    }
    assert forall|k: Seq<char>| #[trigger] missing_names(ph, sh).contains(k) == (has_name(ph, k)
        && !has_name(sh, k)) by {
        lemma_missing_names_members(ph, sh, k);
    }
    assert forall|k: Seq<char>| #[trigger] changed_names(ph, sh).contains(k) == (has_name(ph, k)
        && has_name(sh, k) && value_for(ph, k) != value_for(sh, k)) by {
        lemma_changed_names_members(ph, sh, k);
    }
}

/// Swapping primary and shadow swaps the two status codes, the two body
/// lengths and the added and removed header names, and keeps the shared
/// prefix and the list of changed header names.
pub proof fn divergence_swaps(p: ResponseRecord, s: ResponseRecord, ignored: Seq<IgnoreField>)
    requires
        names_sorted(p.headers@),
        names_sorted(s.headers@),
    ensures
        divergence_of(p, s, ignored) is None == divergence_of(s, p, ignored) is None,
        divergence_of(p, s, ignored) matches Some(d) ==> divergence_of(s, p, ignored) matches Some(e)
            && {
            &&& d.status matches Some((x, y)) ==> e.status == Some((y, x))
            &&& d.status is None ==> e.status is None
            &&& d.body matches Some(b) ==> e.body == Some(
                BodyDiff {
                    primary_len: b.shadow_len,
                    shadow_len: b.primary_len,
                    prefix_equal_bytes: b.prefix_equal_bytes,
                },
            )
            &&& d.body is None ==> e.body is None
            &&& d.headers is None ==> e.headers is None
            &&& d.headers matches Some(h) ==> e.headers matches Some(g) && {
                &&& g.added == h.removed
                &&& g.removed == h.added
                &&& g.changed == h.changed
            }
        },
{
    let ph = p.headers@;
    let sh = s.headers@;
    common_prefix_len_symmetric(p.body@, s.body@);
    header_diff_lists(ph, sh, Seq::empty());
    header_diff_lists(sh, ph, Seq::empty());
    lemma_changed_names_increasing(ph, sh);
    lemma_changed_names_increasing(sh, ph);
    assert forall|k: Seq<char>| #[trigger] changed_names(ph, sh).contains(k) == changed_names(
        sh,
        ph,
    ).contains(k) by {
        lemma_changed_names_members(ph, sh, k);
        lemma_changed_names_members(sh, ph, k);
    }
    lemma_increasing_same_members(changed_names(ph, sh), changed_names(sh, ph));
}

} // verus!
