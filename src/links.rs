use vstd::prelude::*;

use vstd::string::StringExecFns;

use crate::time::Timestamp;

verus! {

/// Usage bookkeeping of one alias.
#[derive(Clone, Copy, Debug, PartialEq, Eq, Structural)]
pub struct EntryMetadata {
    pub used: u64,
    pub last_used: Timestamp,
    pub created: Timestamp,
}

/// What an alias stands for: its target link and its usage.
#[derive(Clone, Debug, PartialEq)]
pub struct Entry {
    pub link: String,
    pub metadata: EntryMetadata,
}

pub struct EntryView {
    pub link: Seq<char>,
    pub metadata: EntryMetadata,
}

impl View for Entry {
    type V = EntryView;

    open spec fn view(&self) -> EntryView {
        EntryView { link: self.link@, metadata: self.metadata }
    }
}

/// The entry that a new alias of `link` gets at time `now`.
pub open spec fn fresh_entry(link: Seq<char>, now: Timestamp) -> EntryView {
    EntryView { link, metadata: EntryMetadata { used: 0, last_used: now, created: now } }
}

impl Entry {
    /// A never used entry for `link`, created at `now`.
    pub fn new(link: String, now: Timestamp) -> (r: Entry)
        ensures
            r@ == fresh_entry(link@, now),
    {
        Entry { link, metadata: EntryMetadata { used: 0, last_used: now, created: now } }
    }

    /// A copy of this entry.
    pub fn copied(&self) -> (r: Entry)
        ensures
            r@ == self@,
    {
        Entry { link: self.link.clone(), metadata: self.metadata }
    }
}

/// The ways in which an operation on the store can fail.
#[derive(Clone, Copy, Debug, PartialEq, Eq, Structural)]
pub enum StoreError {
    /// The alias asked for is already taken.
    AliasInUse,
    /// Every prefix of the link's hash code is taken by another link.
    KeyspaceExhausted,
    /// A stored index names the same alias twice.
    ParseError,
}

/// The forward index as a mathematical map: alias to entry.
pub type AliasMap = Map<Seq<char>, EntryView>;

/// The aliases that lead to `link`.
pub open spec fn aliases_of(m: AliasMap, link: Seq<char>) -> Set<Seq<char>> {
    Set::new(|a: Seq<char>| m.contains_key(a) && m[a].link == link)
}

/// The aliases of `s`, one per pair, are pairwise distinct.
pub open spec fn distinct_aliases(s: Seq<(Seq<char>, EntryView)>) -> bool {
    forall|i: int, j: int| 0 <= i < j < s.len() ==> #[trigger] s[i].0 != #[trigger] s[j].0
}

/// `s` lists `m`: every alias of `m` once, each beside its entry.
pub open spec fn lists(s: Seq<(Seq<char>, EntryView)>, m: AliasMap) -> bool {
    &&& distinct_aliases(s)
    &&& forall|i: int| 0 <= i < s.len() ==> m.contains_key(#[trigger] s[i].0) && m[s[i].0] == s[i].1
    &&& forall|a: Seq<char>| #[trigger] m.contains_key(a) ==> exists|i: int| 0 <= i < s.len() && s[i].0 == a
}

/// The view of a sequence of (alias, entry) pairs.
pub open spec fn pairs_view(v: Seq<(String, Entry)>) -> Seq<(Seq<char>, EntryView)> {
    v.map_values(|p: (String, Entry)| (p.0@, p.1@))
}

/// The view of a sequence of strings.
pub open spec fn names(v: Seq<String>) -> Seq<Seq<char>> {
    v.map_values(|s: String| s@)
}

/// The view of the reverse index: link beside its aliases.
pub open spec fn buckets_view(v: Seq<(String, Vec<String>)>) -> Seq<(Seq<char>, Seq<Seq<char>>)> {
    v.map_values(|p: (String, Vec<String>)| (p.0@, names(p.1@)))
}

/// `r` is the reverse of `m`: one bucket per link that some alias leads to,
/// never empty, each holding exactly the aliases of that link, once each.
pub open spec fn reverses(r: Seq<(Seq<char>, Seq<Seq<char>>)>, m: AliasMap) -> bool {
    &&& forall|i: int, j: int| 0 <= i < j < r.len() ==> #[trigger] r[i].0 != #[trigger] r[j].0
    &&& forall|i: int| 0 <= i < r.len() ==> #[trigger] r[i].1.len() > 0 && r[i].1.no_duplicates()
    &&& forall|i: int, j: int|
        0 <= i < r.len() && 0 <= j < r[i].1.len() ==> m.contains_key(#[trigger] r[i].1[j])
            && m[r[i].1[j]].link == r[i].0
    &&& forall|a: Seq<char>| #[trigger]
        m.contains_key(a) ==> exists|i: int| 0 <= i < r.len() && r[i].0 == m[a].link && r[i].1.contains(a)
}

/// Two indices listed by the same pairs are the same index.
pub proof fn lemma_listing_determines_index(s: Seq<(Seq<char>, EntryView)>, m1: AliasMap, m2: AliasMap)
    requires
        lists(s, m1),
        lists(s, m2),
    ensures
        m1 == m2,
{
    assert forall|a: Seq<char>| m1.contains_key(a) implies m2.contains_key(a) && m1[a] == m2[a] by {
        let i = choose|i: int| 0 <= i < s.len() && s[i].0 == a;
        assert(m2.contains_key(s[i].0));
    }
    assert forall|a: Seq<char>| m2.contains_key(a) implies m1.contains_key(a) by {
        let i = choose|i: int| 0 <= i < s.len() && s[i].0 == a;
        assert(m1.contains_key(s[i].0));
    }
    assert(m1 =~= m2);
}

proof fn lemma_lists_push(s: Seq<(Seq<char>, EntryView)>, m: AliasMap, k: Seq<char>, e: EntryView)
    requires
        lists(s, m),
        !m.contains_key(k),
    ensures
        lists(s.push((k, e)), m.insert(k, e)),
{
    let t = s.push((k, e));
    let n = m.insert(k, e);
    assert forall|i: int| 0 <= i < t.len() implies n.contains_key(#[trigger] t[i].0) && n[t[i].0] == t[i].1 by {
        if i < s.len() {
            assert(t[i] == s[i]);
            assert(m.contains_key(s[i].0));
        }
    }
    assert forall|a: Seq<char>| #[trigger] n.contains_key(a) implies exists|i: int| 0 <= i < t.len() && t[i].0 == a by {
        if a == k {
            assert(t[s.len() as int].0 == a);
        } else {
            let i = choose|i: int| 0 <= i < s.len() && s[i].0 == a;
            assert(t[i].0 == a);
        }
    }
    assert forall|i: int, j: int| 0 <= i < j < t.len() implies #[trigger] t[i].0 != #[trigger] t[j].0 by {
        if j < s.len() {
            assert(t[i] == s[i] && t[j] == s[j]);
        } else {
            assert(t[i] == s[i]);
            assert(m.contains_key(s[i].0));
        }
    }
}

proof fn lemma_lists_remove(s: Seq<(Seq<char>, EntryView)>, m: AliasMap, p: int)
    requires
        lists(s, m),
        0 <= p < s.len(),
    ensures
        lists(s.remove(p), m.remove(s[p].0)),
{
    let k = s[p].0;
    let t = s.remove(p);
    let n = m.remove(k);
    assert forall|i: int| 0 <= i < t.len() implies n.contains_key(#[trigger] t[i].0) && n[t[i].0] == t[i].1 by {
        if i < p {
            assert(t[i] == s[i]);
            assert(m.contains_key(s[i].0));
        } else {
            assert(t[i] == s[i + 1]);
            assert(m.contains_key(s[i + 1].0));
        }
    }
    assert forall|a: Seq<char>| #[trigger] n.contains_key(a) implies exists|i: int| 0 <= i < t.len() && t[i].0 == a by {
        let i = choose|i: int| 0 <= i < s.len() && s[i].0 == a;
        if i < p {
            assert(t[i].0 == a);
        } else {
            assert(i != p);
            assert(t[i - 1].0 == a);
        }
    }
    assert forall|i: int, j: int| 0 <= i < j < t.len() implies #[trigger] t[i].0 != #[trigger] t[j].0 by {
        let i2 = if i < p { i } else { i + 1 };
        let j2 = if j < p { j } else { j + 1 };
        assert(t[i] == s[i2] && t[j] == s[j2]);
    }
}

proof fn lemma_lists_update(s: Seq<(Seq<char>, EntryView)>, m: AliasMap, p: int, e: EntryView)
    requires
        lists(s, m),
        0 <= p < s.len(),
    ensures
        lists(s.update(p, (s[p].0, e)), m.insert(s[p].0, e)),
{
    let k = s[p].0;
    let t = s.update(p, (k, e));
    let n = m.insert(k, e);
    assert forall|i: int| 0 <= i < t.len() implies n.contains_key(#[trigger] t[i].0) && n[t[i].0] == t[i].1 by {
        if i != p {
            assert(t[i] == s[i]);
            assert(m.contains_key(s[i].0));
        }
    }
    assert forall|a: Seq<char>| #[trigger] n.contains_key(a) implies exists|i: int| 0 <= i < t.len() && t[i].0 == a by {
        let i = choose|i: int| 0 <= i < s.len() && s[i].0 == a;
        assert(t[i].0 == a);
    }
    assert forall|i: int, j: int| 0 <= i < j < t.len() implies #[trigger] t[i].0 != #[trigger] t[j].0 by {
        assert(t[i].0 == s[i].0 && t[j].0 == s[j].0);
    }
}

proof fn lemma_reverses_add_to_bucket(
    r: Seq<(Seq<char>, Seq<Seq<char>>)>,
    m: AliasMap,
    b: int,
    k: Seq<char>,
    e: EntryView,
)
    requires
        reverses(r, m),
        !m.contains_key(k),
        0 <= b < r.len(),
        r[b].0 == e.link,
    ensures
        reverses(r.update(b, (r[b].0, r[b].1.push(k))), m.insert(k, e)),
{
    let t = r.update(b, (r[b].0, r[b].1.push(k)));
    let n = m.insert(k, e);
    assert forall|i: int, j: int| 0 <= i < j < t.len() implies #[trigger] t[i].0 != #[trigger] t[j].0 by {
        assert(t[i].0 == r[i].0 && t[j].0 == r[j].0);
    }
    assert forall|i: int| 0 <= i < t.len() implies #[trigger] t[i].1.len() > 0 && t[i].1.no_duplicates() by {
        if i == b {
            let old_b = r[b].1;
            assert(r[b].1.len() > 0);
            assert forall|x: int, y: int| 0 <= x < t[i].1.len() && 0 <= y < t[i].1.len() && x != y implies t[i].1[x]
                != t[i].1[y] by {
                if x < old_b.len() && y < old_b.len() {
                    assert(old_b.no_duplicates());
                } else if x < old_b.len() {
                    assert(m.contains_key(old_b[x]));
                } else if y < old_b.len() {
                    assert(m.contains_key(old_b[y]));
                }
            }
        } else {
            assert(t[i] == r[i]);
        }
    }
    assert forall|i: int, j: int| 0 <= i < t.len() && 0 <= j < t[i].1.len() implies n.contains_key(
        #[trigger] t[i].1[j],
    ) && n[t[i].1[j]].link == t[i].0 by {
        if i == b && j == r[b].1.len() {
        } else {
            assert(t[i].1[j] == r[i].1[j]);
            assert(m.contains_key(r[i].1[j]));
        }
    }
    assert forall|a: Seq<char>| #[trigger] n.contains_key(a) implies exists|i: int|
        0 <= i < t.len() && t[i].0 == n[a].link && t[i].1.contains(a) by {
        if a == k {
            assert(t[b].1[r[b].1.len() as int] == k);
        } else {
            let i = choose|i: int| 0 <= i < r.len() && r[i].0 == m[a].link && r[i].1.contains(a);
            let j = choose|j: int| 0 <= j < r[i].1.len() && r[i].1[j] == a;
            assert(t[i].1[j] == a);
        }
    }
}

proof fn lemma_reverses_new_bucket(r: Seq<(Seq<char>, Seq<Seq<char>>)>, m: AliasMap, k: Seq<char>, e: EntryView)
    requires
        reverses(r, m),
        !m.contains_key(k),
        forall|i: int| 0 <= i < r.len() ==> r[i].0 != e.link,
    ensures
        reverses(r.push((e.link, seq![k])), m.insert(k, e)),
{
    let t = r.push((e.link, seq![k]));
    let n = m.insert(k, e);
    assert forall|i: int, j: int| 0 <= i < j < t.len() implies #[trigger] t[i].0 != #[trigger] t[j].0 by {
        assert(t[i].0 == r[i].0);
    }
    assert forall|i: int| 0 <= i < t.len() implies #[trigger] t[i].1.len() > 0 && t[i].1.no_duplicates() by {
        if i < r.len() {
            assert(t[i] == r[i]);
        }
    }
    assert forall|i: int, j: int| 0 <= i < t.len() && 0 <= j < t[i].1.len() implies n.contains_key(
        #[trigger] t[i].1[j],
    ) && n[t[i].1[j]].link == t[i].0 by {
        if i < r.len() {
            assert(t[i] == r[i]);
            assert(m.contains_key(r[i].1[j]));
        }
    }
    assert forall|a: Seq<char>| #[trigger] n.contains_key(a) implies exists|i: int|
        0 <= i < t.len() && t[i].0 == n[a].link && t[i].1.contains(a) by {
        if a == k {
            assert(t[r.len() as int].1[0] == k);
        } else {
            let i = choose|i: int| 0 <= i < r.len() && r[i].0 == m[a].link && r[i].1.contains(a);
            assert(t[i] == r[i]);
        }
    }
}

proof fn lemma_reverses_drop_from_bucket(r: Seq<(Seq<char>, Seq<Seq<char>>)>, m: AliasMap, b: int, q: int)
    requires
        reverses(r, m),
        0 <= b < r.len(),
        0 <= q < r[b].1.len(),
        r[b].1.len() > 1,
    ensures
        reverses(r.update(b, (r[b].0, r[b].1.remove(q))), m.remove(r[b].1[q])),
{
    let k = r[b].1[q];
    let ob = r[b].1;
    let t = r.update(b, (r[b].0, ob.remove(q)));
    let n = m.remove(k);
    assert forall|i: int, j: int| 0 <= i < j < t.len() implies #[trigger] t[i].0 != #[trigger] t[j].0 by {
        assert(t[i].0 == r[i].0 && t[j].0 == r[j].0);
    }
    assert forall|i: int| 0 <= i < t.len() implies #[trigger] t[i].1.len() > 0 && t[i].1.no_duplicates() by {
        if i == b {
            assert(ob.no_duplicates());
            assert forall|x: int, y: int| 0 <= x < t[i].1.len() && 0 <= y < t[i].1.len() && x != y implies t[i].1[x]
                != t[i].1[y] by {
                let x2 = if x < q { x } else { x + 1 };
                let y2 = if y < q { y } else { y + 1 };
                assert(t[i].1[x] == ob[x2] && t[i].1[y] == ob[y2]);
            }
        } else {
            assert(t[i] == r[i]);
        }
    }
    assert forall|i: int, j: int| 0 <= i < t.len() && 0 <= j < t[i].1.len() implies n.contains_key(
        #[trigger] t[i].1[j],
    ) && n[t[i].1[j]].link == t[i].0 by {
        if i == b {
            let j2 = if j < q { j } else { j + 1 };
            assert(t[i].1[j] == ob[j2]);
            assert(ob.no_duplicates());
            assert(m.contains_key(ob[j2]));
        } else {
            assert(t[i] == r[i]);
            assert(m.contains_key(r[i].1[j]));
            assert(r[i].1[j] != k) by {
                assert(m.contains_key(k));
            }
        }
    }
    assert forall|a: Seq<char>| #[trigger] n.contains_key(a) implies exists|i: int|
        0 <= i < t.len() && t[i].0 == n[a].link && t[i].1.contains(a) by {
        let i = choose|i: int| 0 <= i < r.len() && r[i].0 == m[a].link && r[i].1.contains(a);
        let j = choose|j: int| 0 <= j < r[i].1.len() && r[i].1[j] == a;
        if i == b {
            let j2 = if j < q { j } else { j - 1 };
            assert(t[i].1[j2] == a);
        } else {
            assert(t[i] == r[i]);
        }
    }
}

proof fn lemma_reverses_drop_bucket(r: Seq<(Seq<char>, Seq<Seq<char>>)>, m: AliasMap, b: int)
    requires
        reverses(r, m),
        0 <= b < r.len(),
        r[b].1.len() == 1,
    ensures
        reverses(r.remove(b), m.remove(r[b].1[0])),
{
    let k = r[b].1[0];
    let t = r.remove(b);
    let n = m.remove(k);
    assert forall|i: int, j: int| 0 <= i < j < t.len() implies #[trigger] t[i].0 != #[trigger] t[j].0 by {
        let i2 = if i < b { i } else { i + 1 };
        let j2 = if j < b { j } else { j + 1 };
        assert(t[i] == r[i2] && t[j] == r[j2]);
    }
    assert forall|i: int| 0 <= i < t.len() implies #[trigger] t[i].1.len() > 0 && t[i].1.no_duplicates() by {
        let i2 = if i < b { i } else { i + 1 };
        assert(t[i] == r[i2]);
    }
    assert forall|i: int, j: int| 0 <= i < t.len() && 0 <= j < t[i].1.len() implies n.contains_key(
        #[trigger] t[i].1[j],
    ) && n[t[i].1[j]].link == t[i].0 by {
        let i2 = if i < b { i } else { i + 1 };
        assert(t[i] == r[i2]);
        assert(m.contains_key(r[i2].1[j]));
        assert(m.contains_key(k));
        assert(r[i2].0 != r[b].0);
    }
    assert forall|a: Seq<char>| #[trigger] n.contains_key(a) implies exists|i: int|
        0 <= i < t.len() && t[i].0 == n[a].link && t[i].1.contains(a) by {
        let i = choose|i: int| 0 <= i < r.len() && r[i].0 == m[a].link && r[i].1.contains(a);
        let j = choose|j: int| 0 <= j < r[i].1.len() && r[i].1[j] == a;
        if i == b {
            assert(j == 0);
        } else if i < b {
            assert(t[i] == r[i]);
        } else {
            assert(t[i - 1] == r[i]);
        }
    }
}

proof fn lemma_reverses_same_links(r: Seq<(Seq<char>, Seq<Seq<char>>)>, m: AliasMap, k: Seq<char>, e: EntryView)
    requires
        reverses(r, m),
        m.contains_key(k),
        m[k].link == e.link,
    ensures
        reverses(r, m.insert(k, e)),
{
    let n = m.insert(k, e);
    assert forall|i: int, j: int| 0 <= i < r.len() && 0 <= j < r[i].1.len() implies n.contains_key(
        #[trigger] r[i].1[j],
    ) && n[r[i].1[j]].link == r[i].0 by {
        assert(m.contains_key(r[i].1[j]));
    }
    assert forall|a: Seq<char>| #[trigger] n.contains_key(a) implies exists|i: int|
        0 <= i < r.len() && r[i].0 == n[a].link && r[i].1.contains(a) by {
        assert(m.contains_key(a));
    }
}

/// How a candidate alias is chosen for `link` from its hash code `code`,
/// trying the prefixes of length `i`, `i + 1`, ... up to the whole code: the
/// first free prefix, or the first one already leading to `link` together with
/// its entry. `None` where every prefix is taken by other links.
pub open spec fn derive_from(m: AliasMap, code: Seq<char>, link: Seq<char>, i: nat) -> Option<
    (Seq<char>, Option<EntryView>),
>
    decreases code.len() + 1 - i,
{
    if i > code.len() {
        None
    } else {
        let k = code.subrange(0, i as int);
        if !m.contains_key(k) {
            Some((k, None))
        } else if m[k].link == link {
            Some((k, Some(m[k])))
        } else {
            derive_from(m, code, link, i + 1)
        }
    }
}

proof fn lemma_derive_from(m: AliasMap, code: Seq<char>, link: Seq<char>, i: nat)
    ensures
        match derive_from(m, code, link, i) {
            Some((k, None)) => !m.contains_key(k) && k.len() >= i,
            Some((k, Some(e))) => m.contains_key(k) && m[k] == e && e.link == link && k.len() >= i,
            None => true,
        },
    decreases code.len() + 1 - i,
{
    if i <= code.len() {
        let k = code.subrange(0, i as int);
        if m.contains_key(k) && m[k].link != link {
            lemma_derive_from(m, code, link, i + 1);
        }
    }
}

/// The shortest prefix length that a derived alias may have.
pub const MIN_ALIAS_LEN: usize = 4;

/// The alias derived for `link` from `code`, and the entry already under it
/// where it already leads to `link`.
pub open spec fn derive_outcome(m: AliasMap, code: Seq<char>, link: Seq<char>) -> Result<
    (Seq<char>, Option<EntryView>),
    StoreError,
> {
    match derive_from(m, code, link, MIN_ALIAS_LEN as nat) {
        Some(d) => Ok(d),
        None => Err(StoreError::KeyspaceExhausted),
    }
}

pub open spec fn derived_view(r: Result<(String, Option<Entry>), StoreError>) -> Result<
    (Seq<char>, Option<EntryView>),
    StoreError,
> {
    match r {
        Ok((k, Some(e))) => Ok((k@, Some(e@))),
        Ok((k, None)) => Ok((k@, None)),
        Err(e) => Err(e),
    }
}

/// The index after adding `link` under a derived alias at time `now`, and
/// the alias with its entry: a new entry where the derived alias is free, the
/// existing one where it already leads to `link`.
pub open spec fn add_outcome(m: AliasMap, code: Seq<char>, link: Seq<char>, now: Timestamp) -> (
    AliasMap,
    Result<(Seq<char>, EntryView), StoreError>,
) {
    match derive_outcome(m, code, link) {
        Err(e) => (m, Err(e)),
        Ok((k, Some(e))) => (m, Ok((k, e))),
        Ok((k, None)) => (m.insert(k, fresh_entry(link, now)), Ok((k, fresh_entry(link, now)))),
    }
}

pub open spec fn pair_view(r: Result<(String, Entry), StoreError>) -> Result<(Seq<char>, EntryView), StoreError> {
    match r {
        Ok((k, e)) => Ok((k@, e@)),
        Err(e) => Err(e),
    }
}

/// The entry `e` after one access at time `at`: one more use (the count
/// stops at `u64::MAX`), last used at the later of its old time and `at`.
pub open spec fn touched(e: EntryView, at: Timestamp) -> EntryView {
    EntryView {
        link: e.link,
        metadata: EntryMetadata {
            used: if e.metadata.used < u64::MAX { (e.metadata.used + 1) as u64 } else { e.metadata.used },
            last_used: crate::time::latest(e.metadata.last_used, at),
            created: e.metadata.created,
        },
    }
}

/// The alias store: a forward index from alias to entry and a reverse index
/// from link to the aliases that lead to it, kept in step by every operation.
///
/// Both indices are vectors searched in order. vstd specifies `HashMap` only
/// for key types that obey its key model, which it establishes for integers
/// and not for `String`; with `String` keys nothing of a lookup could be
/// proved, so the indices are kept as vectors whose invariant (`wf`) carries
/// what the maps would have given: unique aliases, unique links.
pub struct Links {
    forward_map: Vec<(String, Entry)>,
    reverse_map: Vec<(String, Vec<String>)>,
    index: Ghost<AliasMap>,
}

impl View for Links {
    type V = AliasMap;

    closed spec fn view(&self) -> AliasMap {
        self.index@
    }
}

/// Where `key` stands in `bucket`, if it does.
fn position_in(bucket: &Vec<String>, key: &String) -> (r: Option<usize>)
    ensures
        match r {
            Some(q) => q < bucket@.len() && bucket@[q as int]@ == key@,
            None => !names(bucket@).contains(key@),
        },
{
    let mut i: usize = 0;
    while i < bucket.len()
        invariant
            i <= bucket@.len(),
            forall|j: int| 0 <= j < i ==> bucket@[j]@ != key@,
        decreases bucket@.len() - i,
    {
        if bucket[i] == *key {
            return Some(i);
        }
        i = i + 1;
    }
    proof {
        if names(bucket@).contains(key@) {
            let j = choose|j: int| 0 <= j < names(bucket@).len() && names(bucket@)[j] == key@;
            assert(bucket@[j]@ == key@);
        }
    }
    None
}

impl Links {
    /// The forward index lists the model, the reverse index reverses it.
    pub closed spec fn wf(&self) -> bool {
        &&& lists(pairs_view(self.forward_map@), self.index@)
        &&& reverses(buckets_view(self.reverse_map@), self.index@)
    }

    /// An empty store.
    pub fn new() -> (r: Links)
        ensures
            r.wf(),
            r@ == Map::<Seq<char>, EntryView>::empty(),
    {
        let r = Links { forward_map: Vec::new(), reverse_map: Vec::new(), index: Ghost(Map::empty()) };
        proof {
            assert(pairs_view(r.forward_map@) =~= Seq::empty());
            assert(buckets_view(r.reverse_map@) =~= Seq::empty());
        }
        r
    }

    /// The number of aliases in the store.
    pub fn len(&self) -> (r: usize)
        requires
            self.wf(),
        ensures
            r == self@.len(),
    {
        proof {
            self.lemma_len();
        }
        self.forward_map.len()
    }

    proof fn lemma_len(&self)
        requires
            self.wf(),
        ensures
            self@.len() == self.forward_map@.len(),
            self@.dom().finite(),
    {
        let s = pairs_view(self.forward_map@);
        let m = self@;
        let ks = Seq::new(s.len(), |i: int| s[i].0);
        assert(ks.no_duplicates());
        assert(ks.to_set() =~= m.dom()) by {
            assert forall|a: Seq<char>| m.contains_key(a) implies ks.contains(a) by {
                let i = choose|i: int| 0 <= i < s.len() && s[i].0 == a;
                assert(ks[i] == a);
            }
        }
        ks.unique_seq_to_set();
    }

    /// Where `key` stands in the forward index.
    fn alias_position(&self, key: &String) -> (r: Option<usize>)
        requires
            self.wf(),
        ensures
            match r {
                Some(p) => p < self.forward_map@.len() && self.forward_map@[p as int].0@ == key@
                    && self@.contains_key(key@) && self@[key@] == self.forward_map@[p as int].1@,
                None => !self@.contains_key(key@),
            },
    {
        let mut i: usize = 0;
        while i < self.forward_map.len()
            invariant
                self.wf(),
                i <= self.forward_map@.len(),
                forall|j: int| 0 <= j < i ==> self.forward_map@[j].0@ != key@,
            decreases self.forward_map@.len() - i,
        {
            if self.forward_map[i].0 == *key {
                proof {
                    assert(pairs_view(self.forward_map@)[i as int].0 == key@);
                }
                return Some(i);
            }
            i = i + 1;
        }
        proof {
            if self@.contains_key(key@) {
                let s = pairs_view(self.forward_map@);
                let j = choose|j: int| 0 <= j < s.len() && s[j].0 == key@;
                assert(self.forward_map@[j].0@ == key@);
            }
        }
        None
    }

    /// Where the bucket of `link` stands in the reverse index.
    fn bucket_position(&self, link: &String) -> (r: Option<usize>)
        ensures
            match r {
                Some(b) => b < self.reverse_map@.len() && self.reverse_map@[b as int].0@ == link@,
                None => forall|i: int| 0 <= i < self.reverse_map@.len() ==> self.reverse_map@[i].0@ != link@,
            },
    {
        let mut i: usize = 0;
        while i < self.reverse_map.len()
            invariant
                i <= self.reverse_map@.len(),
                forall|j: int| 0 <= j < i ==> self.reverse_map@[j].0@ != link@,
            decreases self.reverse_map@.len() - i,
        {
            if self.reverse_map[i].0 == *link {
                return Some(i);
            }
            i = i + 1;
        }
        None
    }

    /// The entry under `key`.
    pub fn get(&self, key: &str) -> (r: Option<&Entry>)
        requires
            self.wf(),
        ensures
            match r {
                Some(e) => self@.contains_key(key@) && e@ == self@[key@],
                None => !self@.contains_key(key@),
            },
    {
        let k = key.to_owned();
        match self.alias_position(&k) {
            Some(p) => Some(&self.forward_map[p].1),
            None => None,
        }
    }

    /// Files `entry` under the alias `key`, which is not in the store yet.
    fn insert_new(&mut self, key: String, entry: Entry)
        requires
            old(self).wf(),
            !old(self)@.contains_key(key@),
        ensures
            final(self).wf(),
            final(self)@ == old(self)@.insert(key@, entry@),
    {
        let ghost m = self.index@;
        let ghost kv = key@;
        let ghost ev = entry@;
        let ghost fwd0 = pairs_view(self.forward_map@);
        let ghost rev0 = buckets_view(self.reverse_map@);
        match self.bucket_position(&entry.link) {
            Some(b) => {
                let ghost old_bucket = self.reverse_map@[b as int].1@;
                self.reverse_map[b].1.push(key.clone());
                proof {
                    assert(names(old_bucket.push(key)) =~= names(old_bucket).push(kv));
                    assert(buckets_view(self.reverse_map@) =~= rev0.update(
                        b as int,
                        (rev0[b as int].0, rev0[b as int].1.push(kv)),
                    ));
                    lemma_reverses_add_to_bucket(rev0, m, b as int, kv, ev);
                }
            },
            None => {
                let mut v: Vec<String> = Vec::new();
                v.push(key.clone());
                let ghost vv = v;
                self.reverse_map.push((entry.link.clone(), v));
                proof {
                    assert(names(vv@) =~= seq![kv]);
                    assert(buckets_view(self.reverse_map@) =~= rev0.push((ev.link, seq![kv])));
                    assert forall|i: int| 0 <= i < rev0.len() implies rev0[i].0 != ev.link by {
                        assert(rev0[i].0 == old(self).reverse_map@[i].0@);
                    }
                    lemma_reverses_new_bucket(rev0, m, kv, ev);
                }
            },
        }
        self.forward_map.push((key, entry));
        self.index = Ghost(m.insert(kv, ev));
        proof {
            assert(pairs_view(self.forward_map@) =~= fwd0.push((kv, ev)));
            lemma_lists_push(fwd0, m, kv, ev);
        }
    }

    /// Adds `link` under the alias `key` at time `now`; fails, changing
    /// nothing, where `key` is taken.
    pub fn add_named_at(&mut self, key: String, link: String, now: Timestamp) -> (r: Result<Entry, StoreError>)
        requires
            old(self).wf(),
        ensures
            final(self).wf(),
            old(self)@.contains_key(key@) ==> r == Err::<Entry, StoreError>(StoreError::AliasInUse)
                && final(self)@ == old(self)@,
            !old(self)@.contains_key(key@) ==> r is Ok && r->Ok_0@ == fresh_entry(link@, now)
                && final(self)@ == old(self)@.insert(key@, fresh_entry(link@, now)),
    {
        if self.alias_position(&key).is_some() {
            return Err(StoreError::AliasInUse);
        }
        let entry = Entry::new(link, now);
        let result = entry.copied();
        self.insert_new(key, entry);
        Ok(result)
    }

    /// Adds `link` under the alias `key`, created now; fails, changing
    /// nothing, where `key` is taken.
    pub fn add_named(&mut self, key: String, link: String) -> (r: Result<Entry, StoreError>)
        requires
            old(self).wf(),
        ensures
            final(self).wf(),
            old(self)@.contains_key(key@) ==> r == Err::<Entry, StoreError>(StoreError::AliasInUse)
                && final(self)@ == old(self)@,
            !old(self)@.contains_key(key@) ==> r is Ok && r->Ok_0@ == fresh_entry(link@, r->Ok_0.metadata.created)
                && final(self)@ == old(self)@.insert(key@, r->Ok_0@),
    {
        self.add_named_at(key, link, Timestamp::now())
    }

    /// The alias that `link` gets from its hash code `code`, with the entry
    /// already under it where it already leads to `link`.
    pub fn derive_key_from_code(&self, code: &String, link: &String) -> (r: Result<(String, Option<Entry>), StoreError>)
        requires
            self.wf(),
        ensures
            derived_view(r) == derive_outcome(self@, code@, link@),
    {
        let n = code.as_str().unicode_len();
        if n < MIN_ALIAS_LEN {
            return Err(StoreError::KeyspaceExhausted);
        }
        let mut i: usize = MIN_ALIAS_LEN;
        while i <= n
            invariant
                self.wf(),
                n == code@.len(),
                MIN_ALIAS_LEN <= i <= n + 1,
                derive_from(self@, code@, link@, i as nat) == derive_from(
                    self@,
                    code@,
                    link@,
                    MIN_ALIAS_LEN as nat,
                ),
            decreases n + 1 - i,
        {
            let key = code.as_str().substring_char(0, i).to_owned();
            match self.alias_position(&key) {
                None => {
                    return Ok((key, None));
                },
                Some(p) => {
                    if self.forward_map[p].1.link == *link {
                        return Ok((key, Some(self.forward_map[p].1.copied())));
                    }
                },
            }
            if i == n {
                proof {
                    assert(derive_from(self@, code@, link@, (i + 1) as nat) == None::<
                        (Seq<char>, Option<EntryView>),
                    >);
                }
                return Err(StoreError::KeyspaceExhausted);
            }
            i = i + 1;
        }
        Err(StoreError::KeyspaceExhausted)
    }

    /// The alias that `link` gets, with the entry already under it where it
    /// already leads to `link`.
    pub fn derive_key(&self, link: &String) -> (r: Result<(String, Option<Entry>), StoreError>)
        requires
            self.wf(),
        ensures
            derived_view(r) == derive_outcome(self@, crate::keygen::hash_code_of(link@), link@),
    {
        let code = crate::keygen::link_hash_code(link.as_str());
        self.derive_key_from_code(&code, link)
    }

    /// Adds `link` at time `now` under the alias derived from `code`, or
    /// hands back the alias and entry already leading to it.
    pub fn add_with_code(&mut self, code: &String, link: String, now: Timestamp) -> (r: Result<(String, Entry), StoreError>)
        requires
            old(self).wf(),
        ensures
            final(self).wf(),
            (final(self)@, pair_view(r)) == add_outcome(old(self)@, code@, link@, now),
    {
        match self.derive_key_from_code(code, &link) {
            Err(e) => Err(e),
            Ok((key, Some(entry))) => Ok((key, entry)),
            Ok((key, None)) => {
                proof {
                    lemma_derive_from(self@, code@, link@, MIN_ALIAS_LEN as nat);
                }
                let entry = Entry::new(link, now);
                let result = entry.copied();
                self.insert_new(key.clone(), entry);
                Ok((key, result))
            },
        }
    }

    /// Adds `link` at time `now` under the alias derived from its hash code,
    /// or hands back the alias and entry already leading to it.
    pub fn add_at(&mut self, link: String, now: Timestamp) -> (r: Result<(String, Entry), StoreError>)
        requires
            old(self).wf(),
        ensures
            final(self).wf(),
            (final(self)@, pair_view(r)) == add_outcome(old(self)@, crate::keygen::hash_code_of(link@), link@, now),
    {
        let code = crate::keygen::link_hash_code(link.as_str());
        self.add_with_code(&code, link, now)
    }

    /// Adds `link`, created now, under the alias derived from its hash code,
    /// or hands back the alias and entry already leading to it.
    pub fn add(&mut self, link: String) -> (r: Result<(String, Entry), StoreError>)
        requires
            old(self).wf(),
        ensures
            final(self).wf(),
            exists|now: Timestamp|
                (final(self)@, pair_view(r)) == add_outcome(old(self)@, crate::keygen::hash_code_of(link@), link@, now),
    {
        let now = Timestamp::now();
        self.add_at(link, now)
    }

    /// Removes the alias `key`, handing back its entry; where the link had no
    /// other alias its reverse bucket goes too.
    pub fn remove(&mut self, key: &str) -> (r: Option<Entry>)
        requires
            old(self).wf(),
        ensures
            final(self).wf(),
            match r {
                Some(e) => old(self)@.contains_key(key@) && e@ == old(self)@[key@] && final(self)@ == old(self)@.remove(
                    key@,
                ),
                None => !old(self)@.contains_key(key@) && final(self)@ == old(self)@,
            },
    {
        let k = key.to_owned();
        let p = match self.alias_position(&k) {
            Some(p) => p,
            None => {
                return None;
            },
        };
        let ghost m = self.index@;
        let ghost fwd0 = pairs_view(self.forward_map@);
        let ghost rev0 = buckets_view(self.reverse_map@);
        let (_, entry) = self.forward_map.remove(p);
        proof {
            assert(pairs_view(self.forward_map@) =~= fwd0.remove(p as int));
            lemma_lists_remove(fwd0, m, p as int);
        }
        let b = match self.bucket_position(&entry.link) {
            Some(b) => b,
            None => {
                proof {
                    assert(m.contains_key(k@));
                    assert(entry@ == m[k@]);
                    let i = choose|i: int| 0 <= i < rev0.len() && rev0[i].0 == m[k@].link && rev0[i].1.contains(k@);
                    assert(rev0[i].0 == self.reverse_map@[i].0@);
                    assert(self.reverse_map@[i].0@ != entry.link@);
                }
                return None;
            },
        };
        let q = match position_in(&self.reverse_map[b].1, &k) {
            Some(q) => q,
            None => {
                proof {
                    assert(m.contains_key(k@));
                    assert(entry@ == m[k@]);
                    let i = choose|i: int| 0 <= i < rev0.len() && rev0[i].0 == m[k@].link && rev0[i].1.contains(k@);
                    assert(rev0[b as int].0 == self.reverse_map@[b as int].0@);
                    assert(rev0[i].0 == rev0[b as int].0);
                    if i < b as int {
                        assert(rev0[i].0 != rev0[b as int].0);
                    } else if i > b as int {
                        assert(rev0[b as int].0 != rev0[i].0);
                    }
                    assert(rev0[b as int].1 == names(self.reverse_map@[b as int].1@));
                }
                return None;
            },
        };
        proof {
            assert(rev0[b as int].1[q as int] == k@);
        }
        if self.reverse_map[b].1.len() == 1 {
            self.reverse_map.remove(b);
            proof {
                assert(buckets_view(self.reverse_map@) =~= rev0.remove(b as int));
                lemma_reverses_drop_bucket(rev0, m, b as int);
            }
        } else {
            let ghost old_bucket = self.reverse_map@[b as int].1@;
            self.reverse_map[b].1.remove(q);
            proof {
                assert(names(old_bucket.remove(q as int)) =~= names(old_bucket).remove(q as int));
                assert(buckets_view(self.reverse_map@) =~= rev0.update(
                    b as int,
                    (rev0[b as int].0, rev0[b as int].1.remove(q as int)),
                ));
                lemma_reverses_drop_from_bucket(rev0, m, b as int, q as int);
            }
        }
        self.index = Ghost(m.remove(k@));
        Some(entry)
    }

    /// The aliases that lead to `link`, each once; `None` where there are none.
    pub fn find_by_link(&self, link: &str) -> (r: Option<&[String]>)
        requires
            self.wf(),
        ensures
            match r {
                Some(s) => s@.len() > 0 && names(s@).no_duplicates() && names(s@).to_set() == aliases_of(self@, link@),
                None => aliases_of(self@, link@) == Set::<Seq<char>>::empty(),
            },
    {
        let l = link.to_owned();
        let ghost m = self@;
        let ghost rev = buckets_view(self.reverse_map@);
        match self.bucket_position(&l) {
            None => {
                proof {
                    assert forall|a: Seq<char>| !aliases_of(m, link@).contains(a) by {
                        if m.contains_key(a) && m[a].link == link@ {
                            let i = choose|i: int| 0 <= i < rev.len() && rev[i].0 == m[a].link && rev[i].1.contains(a);
                            assert(rev[i].0 == self.reverse_map@[i].0@);
                        }
                    }
                    assert(aliases_of(m, link@) =~= Set::<Seq<char>>::empty());
                }
                None
            },
            Some(b) => {
                let bucket = self.reverse_map[b].1.as_slice();
                proof {
                    let bi = b as int;
                    assert(rev[bi].1 == names(bucket@));
                    assert(rev[bi].0 == link@);
                    assert(rev[bi].1.len() > 0);
                    assert forall|a: Seq<char>| aliases_of(m, link@).contains(a) implies names(bucket@).contains(a) by {
                        let i = choose|i: int| 0 <= i < rev.len() && rev[i].0 == m[a].link && rev[i].1.contains(a);
                        if i < bi {
                            assert(rev[i].0 != rev[bi].0);
                        } else if i > bi {
                            assert(rev[bi].0 != rev[i].0);
                        }
                    }
                    assert forall|a: Seq<char>| names(bucket@).contains(a) implies aliases_of(m, link@).contains(a) by {
                        let j = choose|j: int| 0 <= j < rev[bi].1.len() && rev[bi].1[j] == a;
                        assert(m.contains_key(rev[bi].1[j]));
                    }
                    assert(names(bucket@).to_set() =~= aliases_of(m, link@));
                }
                Some(bucket)
            },
        }
    }

    /// Every alias with its entry, each once.
    pub fn iter(&self) -> (r: Vec<(String, Entry)>)
        requires
            self.wf(),
        ensures
            lists(pairs_view(r@), self@),
    {
        let mut out: Vec<(String, Entry)> = Vec::new();
        let mut i: usize = 0;
        while i < self.forward_map.len()
            invariant
                i <= self.forward_map@.len(),
                pairs_view(out@) =~= pairs_view(self.forward_map@).subrange(0, i as int),
            decreases self.forward_map@.len() - i,
        {
            let pair = (self.forward_map[i].0.clone(), self.forward_map[i].1.copied());
            let ghost before = out@;
            out.push(pair);
            proof {
                assert(pairs_view(out@) =~= pairs_view(before).push((pair.0@, pair.1@)));
            }
            i = i + 1;
        }
        proof {
            assert(pairs_view(out@) =~= pairs_view(self.forward_map@));
        }
        out
    }

    /// A store holding exactly the listed entries, the reverse index rebuilt
    /// from them; fails where an alias is listed twice.
    pub fn from_entries(entries: Vec<(String, Entry)>) -> (r: Result<Links, StoreError>)
        ensures
            r is Ok <==> distinct_aliases(pairs_view(entries@)),
            match r {
                Ok(links) => links.wf() && lists(pairs_view(entries@), links@),
                Err(e) => e == StoreError::ParseError,
            },
    {
        let ghost s = pairs_view(entries@);
        let mut links = Links::new();
        let mut i: usize = 0;
        while i < entries.len()
            invariant
                i <= entries@.len(),
                s == pairs_view(entries@),
                links.wf(),
                lists(s.subrange(0, i as int), links@),
            decreases entries@.len() - i,
        {
            let key = entries[i].0.clone();
            if links.alias_position(&key).is_some() {
                proof {
                    let t = s.subrange(0, i as int);
                    let j = choose|j: int| 0 <= j < t.len() && t[j].0 == key@;
                    assert(s[j].0 == s[i as int].0);
                }
                return Err(StoreError::ParseError);
            }
            let entry = entries[i].1.copied();
            proof {
                assert(s.subrange(0, i + 1) =~= s.subrange(0, i as int).push((key@, entry@)));
                lemma_lists_push(s.subrange(0, i as int), links@, key@, entry@);
            }
            links.insert_new(key, entry);
            i = i + 1;
        }
        proof {
            assert(s.subrange(0, i as int) =~= s);
        }
        Ok(links)
    }

    /// Counts one access of `key` at time `at`; an alias that is gone is
    /// passed over, changing nothing.
    pub fn record_access(&mut self, key: &str, at: Timestamp) -> (r: bool)
        requires
            old(self).wf(),
        ensures
            final(self).wf(),
            r == old(self)@.contains_key(key@),
            r ==> final(self)@ == old(self)@.insert(key@, touched(old(self)@[key@], at)),
            !r ==> final(self)@ == old(self)@,
    {
        let k = key.to_owned();
        match self.alias_position(&k) {
            None => false,
            Some(p) => {
                let ghost m = self.index@;
                let ghost fwd0 = pairs_view(self.forward_map@);
                let md = self.forward_map[p].1.metadata;
                let used = if md.used < u64::MAX {
                    md.used + 1
                } else {
                    md.used
                };
                let new_md = EntryMetadata { used, last_used: md.last_used.max(at), created: md.created };
                self.forward_map[p].1.metadata = new_md;
                let ghost e = touched(m[k@], at);
                self.index = Ghost(m.insert(k@, e));
                proof {
                    assert(pairs_view(self.forward_map@) =~= fwd0.update(p as int, (k@, e)));
                    lemma_lists_update(fwd0, m, p as int, e);
                    lemma_reverses_same_links(buckets_view(self.reverse_map@), m, k@, e);
                }
                true
            },
        }
    }
}

impl Default for Links {
    fn default() -> (r: Links)
        ensures
            r.wf(),
            r@ == Map::<Seq<char>, EntryView>::empty(),
    {
        Links::new()
    }
}

proof fn lemma_derive_after_insert(m: AliasMap, code: Seq<char>, link: Seq<char>, i: nat, e: EntryView)
    requires
        derive_from(m, code, link, i) matches Some((_, None)),
        e.link == link,
    ensures
        derive_from(m.insert(derive_from(m, code, link, i)->Some_0.0, e), code, link, i) == Some(
            (derive_from(m, code, link, i)->Some_0.0, Some(e)),
        ),
    decreases code.len() + 1 - i,
{
    let k = derive_from(m, code, link, i)->Some_0.0;
    let p = code.subrange(0, i as int);
    if m.contains_key(p) {
        lemma_derive_from(m, code, link, i + 1);
        assert(p.len() == i);
        lemma_derive_after_insert(m, code, link, i + 1, e);
    }
}

/// Every alias is among the aliases of its own link, the set that
/// `find_by_link` gives back, which is therefore never empty for a link in use.
pub proof fn lemma_alias_found_by_its_link(links: &Links, a: Seq<char>)
    requires
        links.wf(),
        links@.contains_key(a),
    ensures
        aliases_of(links@, links@[a].link).contains(a),
        aliases_of(links@, links@[a].link) != Set::<Seq<char>>::empty(),
{
    assert(aliases_of(links@, links@[a].link).contains(a));
}

/// Writing out a store and reading it back restores it: a listing of the
/// store, as `iter` gives it, names no alias twice, so `from_entries` accepts
/// it, and the store rebuilt from it has the same aliases and entries.
pub proof fn lemma_round_trip(links: &Links, listing: Seq<(Seq<char>, EntryView)>, restored: AliasMap)
    requires
        links.wf(),
        lists(listing, links@),
        lists(listing, restored),
    ensures
        distinct_aliases(listing),
        restored == links@,
{
    lemma_listing_determines_index(listing, links@, restored);
}

/// Adding a link under a derived alias twice in a row, at any two times,
/// gives the same alias and entry both times, and the second call changes
/// nothing. Where no alias led to the link before, exactly one does after.
pub proof fn lemma_add_idempotent(m: AliasMap, code: Seq<char>, link: Seq<char>, t1: Timestamp, t2: Timestamp)
    ensures
        add_outcome(add_outcome(m, code, link, t1).0, code, link, t2) == add_outcome(m, code, link, t1),
        aliases_of(m, link) == Set::<Seq<char>>::empty() && add_outcome(m, code, link, t1).1 is Ok ==> aliases_of(
            add_outcome(m, code, link, t1).0,
            link,
        ) == set![add_outcome(m, code, link, t1).1->Ok_0.0],
{
    let m1 = add_outcome(m, code, link, t1).0;
    lemma_derive_from(m, code, link, MIN_ALIAS_LEN as nat);
    match derive_outcome(m, code, link) {
        Err(_) => {},
        Ok((k, Some(e))) => {
            if aliases_of(m, link) == Set::<Seq<char>>::empty() {
                assert(aliases_of(m, link).contains(k));
            }
        },
        Ok((k, None)) => {
            let e = fresh_entry(link, t1);
            lemma_derive_after_insert(m, code, link, MIN_ALIAS_LEN as nat, e);
            assert(derive_outcome(m1, code, link) == Ok::<(Seq<char>, Option<EntryView>), StoreError>((k, Some(e))));
            if aliases_of(m, link) == Set::<Seq<char>>::empty() {
                assert forall|a: Seq<char>| aliases_of(m1, link).contains(a) implies a == k by {
                    if a != k {
                        assert(aliases_of(m, link).contains(a));
                    }
                }
                assert(aliases_of(m1, link) =~= set![k]);
            }
        },
    }
}

/// After an alias is removed it is gone, and removing it again finds
/// nothing; where it was the only alias of its link, that link has no
/// aliases left, so `find_by_link` gives none.
pub proof fn lemma_remove_clears(m: AliasMap, a: Seq<char>)
    requires
        m.contains_key(a),
    ensures
        !m.remove(a).contains_key(a),
        aliases_of(m, m[a].link) == set![a] ==> aliases_of(m.remove(a), m[a].link) == Set::<Seq<char>>::empty(),
{
    if aliases_of(m, m[a].link) == set![a] {
        assert forall|b: Seq<char>| !aliases_of(m.remove(a), m[a].link).contains(b) by {
            if aliases_of(m.remove(a), m[a].link).contains(b) {
                assert(aliases_of(m, m[a].link).contains(b));
            }
        }
        assert(aliases_of(m.remove(a), m[a].link) =~= Set::<Seq<char>>::empty());
    }
}

/// Two different links added one after the other under derived aliases, for
/// instance links whose hash codes agree on their first four characters, end
/// up under different aliases, and each alias is among those of its own link.
pub proof fn lemma_distinct_links_get_distinct_aliases(
    m: AliasMap,
    code1: Seq<char>,
    link1: Seq<char>,
    t1: Timestamp,
    code2: Seq<char>,
    link2: Seq<char>,
    t2: Timestamp,
)
    requires
        link1 != link2,
    ensures
        ({
            let (m1, r1) = add_outcome(m, code1, link1, t1);
            let (m2, r2) = add_outcome(m1, code2, link2, t2);
            r1 is Ok && r2 is Ok ==> {
                &&& r1->Ok_0.0 != r2->Ok_0.0
                &&& aliases_of(m2, link1).contains(r1->Ok_0.0)
                &&& aliases_of(m2, link2).contains(r2->Ok_0.0)
            }
        }),
{
    let (m1, r1) = add_outcome(m, code1, link1, t1);
    lemma_derive_from(m, code1, link1, MIN_ALIAS_LEN as nat);
    lemma_derive_from(m1, code2, link2, MIN_ALIAS_LEN as nat);
}

/// `p` is a prefix of `s`.
pub open spec fn has_prefix(s: Seq<char>, p: Seq<char>) -> bool {
    p.len() <= s.len() && s.subrange(0, p.len() as int) == p
}

/// Where a visitor is sent for `link`: the link itself where it names the
/// http or https scheme, else the link behind `http://`.
pub open spec fn with_scheme(link: Seq<char>) -> Seq<char> {
    if has_prefix(link, "http://"@) || has_prefix(link, "https://"@) {
        link
    } else {
        "http://"@ + link
    }
}

fn starts_with(s: &str, p: &str) -> (r: bool)
    ensures
        r == has_prefix(s@, p@),
{
    let n = s.unicode_len();
    let m = p.unicode_len();
    if m > n {
        return false;
    }
    let mut i: usize = 0;
    while i < m
        invariant
            n == s@.len(),
            m == p@.len(),
            m <= n,
            i <= m,
            forall|j: int| 0 <= j < i ==> s@[j] == p@[j],
        decreases m - i,
    {
        if s.get_char(i) != p.get_char(i) {
            return false;
        }
        i = i + 1;
    }
    assert(s@.subrange(0, m as int) =~= p@);
    true
}

impl Links {
    /// The address to which a visitor of `key` is sent.
    pub fn redirect_target(&self, key: &str) -> (r: Option<String>)
        requires
            self.wf(),
        ensures
            match r {
                Some(t) => self@.contains_key(key@) && t@ == with_scheme(self@[key@].link),
                None => !self@.contains_key(key@),
            },
    {
        match self.get(key) {
            None => None,
            Some(entry) => {
                let link = entry.link.as_str();
                if starts_with(link, "http://") || starts_with(link, "https://") {
                    Some(entry.link.clone())
                } else {
                    let mut t = "http://".to_owned();
                    t.append(link);
                    Some(t)
                }
            },
        }
    }
}

/// The links that some alias leads to.
pub open spec fn linked(m: AliasMap) -> Set<Seq<char>> {
    Set::new(|l: Seq<char>| exists|a: Seq<char>| m.contains_key(a) && m[a].link == l)
}

impl Links {
    /// The number of distinct links in the store: the size of the reverse index.
    pub fn link_count(&self) -> (r: usize)
        requires
            self.wf(),
        ensures
            r == linked(self@).len(),
            linked(self@).finite(),
    {
        proof {
            let rv = buckets_view(self.reverse_map@);
            let m = self@;
            let ls = Seq::new(rv.len(), |i: int| rv[i].0);
            assert(ls.no_duplicates());
            assert(ls.to_set() =~= linked(m)) by {
                assert forall|l: Seq<char>| ls.contains(l) implies linked(m).contains(l) by {
                    let i = choose|i: int| 0 <= i < ls.len() && ls[i] == l;
                    assert(rv[i].1.len() > 0);
                    assert(m.contains_key(rv[i].1[0]));
                }
                assert forall|l: Seq<char>| linked(m).contains(l) implies ls.contains(l) by {
                    let a = choose|a: Seq<char>| m.contains_key(a) && m[a].link == l;
                    let i = choose|i: int| 0 <= i < rv.len() && rv[i].0 == m[a].link && rv[i].1.contains(a);
                    assert(ls[i] == l);
                }
            }
            ls.unique_seq_to_set();
        }
        self.reverse_map.len()
    }
}

/// On an empty store, a link added under a code of at least four characters
/// gets the code's first four characters as alias, with a new entry.
pub proof fn lemma_add_to_empty(code: Seq<char>, link: Seq<char>, now: Timestamp)
    requires
        code.len() >= MIN_ALIAS_LEN,
    ensures
        add_outcome(Map::<Seq<char>, EntryView>::empty(), code, link, now) == (
            Map::<Seq<char>, EntryView>::empty().insert(code.subrange(0, 4), fresh_entry(link, now)),
            Ok::<(Seq<char>, EntryView), StoreError>((code.subrange(0, 4), fresh_entry(link, now))),
        ),
{
    let m0 = Map::<Seq<char>, EntryView>::empty();
    assert(!m0.contains_key(code.subrange(0, 4)));
    assert(derive_from(m0, code, link, 4) == Some((code.subrange(0, 4), None::<EntryView>)));
}

/// Two different links whose codes agree on their first four characters,
/// added one after the other to an empty store: the first gets those four
/// characters, the second the first five of its own code, and both entries
/// stay in the store.
pub proof fn lemma_colliding_prefix_extends(
    code1: Seq<char>,
    link1: Seq<char>,
    t1: Timestamp,
    code2: Seq<char>,
    link2: Seq<char>,
    t2: Timestamp,
)
    requires
        link1 != link2,
        code1.len() >= 4,
        code2.len() >= 5,
        code1.subrange(0, 4) == code2.subrange(0, 4),
    ensures
        ({
            let m0 = Map::<Seq<char>, EntryView>::empty();
            let (m1, r1) = add_outcome(m0, code1, link1, t1);
            let (m2, r2) = add_outcome(m1, code2, link2, t2);
            &&& r1 == Ok::<(Seq<char>, EntryView), StoreError>((code1.subrange(0, 4), fresh_entry(link1, t1)))
            &&& r2 == Ok::<(Seq<char>, EntryView), StoreError>((code2.subrange(0, 5), fresh_entry(link2, t2)))
            &&& m2 == m0.insert(code1.subrange(0, 4), fresh_entry(link1, t1)).insert(
                code2.subrange(0, 5),
                fresh_entry(link2, t2),
            )
        }),
{
    let m0 = Map::<Seq<char>, EntryView>::empty();
    lemma_add_to_empty(code1, link1, t1);
    let m1 = m0.insert(code1.subrange(0, 4), fresh_entry(link1, t1));
    let a2 = code2.subrange(0, 5);
    assert(a2.len() == 5);
    assert(!m1.contains_key(a2));
    assert(derive_from(m1, code2, link2, 5) == Some((a2, None::<EntryView>)));
    assert(m1.contains_key(code2.subrange(0, 4)));
    assert(derive_from(m1, code2, link2, 4) == derive_from(m1, code2, link2, 5));
}

} // verus!
