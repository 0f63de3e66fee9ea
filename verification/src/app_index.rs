//! The index of installed applications and the search over it.
use vstd::prelude::*;

use crate::text::{
    chars_of, contains_chars, is_substring, lemma_lex_irreflexive, lemma_lex_not_after_transitive, lemma_lex_total,
    lex_less, lex_lt, spec_to_lowercase, to_lowercase, ascii_lower,
};
use vstd::utf8::is_ascii_chars;

verus! {

/// The most applications that one search returns.
pub const MAX_APP_RESULTS: usize = 10;

/// An installed application as the search sees it: the identity of the
/// desktop entry object, its name and its display name.
#[derive(Clone, Debug)]
pub struct AppEntry {
    pub id: u64,
    pub name: String,
    pub display_name: String,
}

impl AppEntry {
    /// A copy of this entry.
    pub fn duplicate(&self) -> (r: AppEntry)
        ensures
            r == *self,
    {
        AppEntry { id: self.id, name: self.name.clone(), display_name: self.display_name.clone() }
    }
}

/// True when some entry of `s` has identity `id`.
pub open spec fn has_id(s: Seq<AppEntry>, id: u64) -> bool {
    exists|k: int| 0 <= k < s.len() && #[trigger] s[k].id == id
}

/// The identities of the entries of `s`.
pub open spec fn id_set(s: Seq<AppEntry>) -> Set<u64> {
    Set::new(|id: u64| has_id(s, id))
}

/// No identity occurs twice in `s`.
pub open spec fn ids_distinct(s: Seq<AppEntry>) -> bool {
    forall|i: int, j: int| 0 <= i < j < s.len() ==> s[i].id != s[j].id
}

/// `s` with every entry dropped whose identity occurred earlier, as
/// collecting into a set of objects keeps them.
pub open spec fn unique_by_id(s: Seq<AppEntry>) -> Seq<AppEntry>
    decreases s.len(),
{
    if s.len() == 0 {
        seq![]
    } else {
        let rest = unique_by_id(s.drop_last());
        if has_id(rest, s.last().id) {
            rest
        } else {
            rest.push(s.last())
        }
    }
}

/// Dropping repeated identities keeps every identity and repeats none.
pub proof fn lemma_unique_by_id(s: Seq<AppEntry>)
    ensures
        forall|id: u64| has_id(unique_by_id(s), id) == has_id(s, id),
        ids_distinct(unique_by_id(s)),
        id_set(unique_by_id(s)) == id_set(s),
    decreases s.len(),
{
    if s.len() > 0 {
        let rest = unique_by_id(s.drop_last());
        lemma_unique_by_id(s.drop_last());
        assert forall|id: u64| has_id(unique_by_id(s), id) == has_id(s, id) by {
            let u = unique_by_id(s);
            if has_id(s, id) {
                let k = choose|k: int| 0 <= k < s.len() && #[trigger] s[k].id == id;
                if k < s.len() - 1 {
                    assert(s.drop_last()[k].id == id);
                    assert(has_id(s.drop_last(), id));
                    assert(has_id(rest, id));
                    let t = choose|t: int| 0 <= t < rest.len() && #[trigger] rest[t].id == id;
                    assert(u[t].id == id);
                } else if !has_id(rest, id) {
                    assert(u[u.len() - 1].id == id);
                }
            }
            if has_id(u, id) {
                let k = choose|k: int| 0 <= k < u.len() && #[trigger] u[k].id == id;
                if k < rest.len() {
                    assert(rest[k].id == id);
                    assert(has_id(rest, id));
                    assert(has_id(s.drop_last(), id));
                    let t = choose|t: int| 0 <= t < s.drop_last().len() && #[trigger] s.drop_last()[t].id == id;
                    assert(s[t].id == id);
                } else {
                    assert(s[s.len() - 1].id == id);
                }
            }
        }
        assert(id_set(unique_by_id(s)) =~= id_set(s));
    } else {
        assert(id_set(unique_by_id(s)) =~= id_set(s));
    }
}

/// The search term, case-folded, occurs in the case-folded display name.
pub open spec fn app_matches(e: AppEntry, lowered_query: Seq<char>) -> bool {
    is_substring(lowered_query, spec_to_lowercase(e.display_name@))
}

/// The entries of `apps` that match, in order.
pub open spec fn matching_apps(apps: Seq<AppEntry>, lowered_query: Seq<char>) -> Seq<AppEntry>
    decreases apps.len(),
{
    if apps.len() == 0 {
        seq![]
    } else {
        let rest = matching_apps(apps.drop_last(), lowered_query);
        if app_matches(apps.last(), lowered_query) {
            rest.push(apps.last())
        } else {
            rest
        }
    }
}

/// The first `n` elements of `s`, or all of them when there are fewer.
pub open spec fn first_n<A>(s: Seq<A>, n: nat) -> Seq<A> {
    if s.len() <= n {
        s
    } else {
        s.take(n as int)
    }
}

/// The key by which results are ordered: the case-folded name.
pub open spec fn name_key(e: AppEntry) -> Seq<char> {
    spec_to_lowercase(e.name@)
}

/// No entry of `s` comes after a later one by name key.
pub open spec fn sorted_by_name(s: Seq<AppEntry>) -> bool {
    forall|i: int, j: int| 0 <= i < j < s.len() ==> !lex_lt(name_key(s[j]), name_key(s[i]))
}

/// `p` maps each position of `r` to a distinct position of `s` holding the
/// same entry, and entries with equal keys keep their order from `s`.
pub open spec fn stable_placement(p: Seq<int>, r: Seq<AppEntry>, s: Seq<AppEntry>) -> bool {
    &&& p.len() == r.len()
    &&& r.len() == s.len()
    &&& forall|j: int| 0 <= j < r.len() ==> 0 <= #[trigger] p[j] < s.len() && r[j] == s[p[j]]
    &&& forall|j1: int, j2: int| 0 <= j1 < j2 < r.len() ==> p[j1] != p[j2]
    &&& forall|j1: int, j2: int|
        0 <= j1 < j2 < r.len() && name_key(r[j1]) == name_key(r[j2]) ==> p[j1] < p[j2]
}

/// `r` is `s` stably sorted by case-folded name.
pub open spec fn stably_sorted_by_name(r: Seq<AppEntry>, s: Seq<AppEntry>) -> bool {
    &&& sorted_by_name(r)
    &&& exists|p: Seq<int>| stable_placement(p, r, s)
}

/// The case-folded name of `e`, as characters.
fn name_key_of(e: &AppEntry) -> (r: Vec<char>)
    ensures
        r@ == name_key(*e),
{
    let lowered = to_lowercase(e.name.as_str());
    chars_of(lowered.as_str())
}

/// Sorts `items` by case-folded name, keeping the order of equal names.
pub fn sort_by_name(items: &Vec<AppEntry>) -> (r: Vec<AppEntry>)
    ensures
        stably_sorted_by_name(r@, items@),
{
    let mut out: Vec<AppEntry> = Vec::new();
    let mut out_keys: Vec<Vec<char>> = Vec::new();
    let ghost mut p: Seq<int> = seq![];
    let mut i: usize = 0;
    while i < items.len()
        invariant
            i <= items.len(),
            out@.len() == i,
            out_keys@.len() == i,
            p.len() == i,
            forall|t: int| 0 <= t < i ==> (#[trigger] out_keys@[t])@ == name_key(out@[t]),
            sorted_by_name(out@),
            forall|j: int| 0 <= j < i ==> 0 <= #[trigger] p[j] < i && out@[j] == items@[p[j]],
            forall|j1: int, j2: int| 0 <= j1 < j2 < i ==> p[j1] != p[j2],
            forall|j1: int, j2: int|
                0 <= j1 < j2 < i && name_key(out@[j1]) == name_key(out@[j2]) ==> p[j1] < p[j2],
        decreases items.len() - i,
    {
        let e = items[i].duplicate();
        let k = name_key_of(&e);
        let mut pos: usize = out.len();
        loop
            invariant
                pos <= out@.len(),
                out@.len() == i,
                out_keys@.len() == i,
                forall|t: int| 0 <= t < i ==> (#[trigger] out_keys@[t])@ == name_key(out@[t]),
                forall|t: int| pos <= t < i ==> lex_lt(k@, name_key(#[trigger] out@[t])),
            ensures
                pos <= out@.len(),
                forall|t: int| pos <= t < i ==> lex_lt(k@, name_key(#[trigger] out@[t])),
                pos > 0 ==> !lex_lt(k@, name_key(out@[pos - 1])),
            decreases pos,
        {
            if pos == 0 {
                break;
            }
            if !lex_less(&k, &out_keys[pos - 1]) {
                break;
            }
            pos -= 1;
        }
        let ghost old_out = out@;
        let ghost old_keys = out_keys@;
        proof {
            // everything before the insertion point is not after the new key
            assert forall|t: int| 0 <= t < pos implies !lex_lt(k@, name_key(#[trigger] old_out[t])) by {
                assert(!lex_lt(k@, name_key(old_out[pos - 1])));
                if t < pos - 1 {
                    lemma_lex_not_after_transitive(name_key(old_out[t]), name_key(old_out[pos - 1]), k@);
                }
            }
            assert forall|t: int| pos <= t < i implies !lex_lt(name_key(#[trigger] old_out[t]), k@) by {
                lemma_lex_total(k@, name_key(old_out[t]));
            }
            assert forall|t: int| pos <= t < i implies name_key(#[trigger] old_out[t]) != k@ by {
                lemma_lex_irreflexive(k@);
            }
        }
        out.insert(pos, e);
        out_keys.insert(pos, k);
        proof {
            p = p.insert(pos as int, i as int);
            assert(out@ == old_out.insert(pos as int, items@[i as int]));
            assert(out_keys@ == old_keys.insert(pos as int, k));
            assert forall|t: int| 0 <= t < i + 1 implies (#[trigger] out_keys@[t])@ == name_key(out@[t]) by {
                if t > pos {
                    assert(out_keys@[t] == old_keys[t - 1]);
                    assert(out@[t] == old_out[t - 1]);
                }
            }
        }
        i += 1;
    }
    proof {
        assert(stable_placement(p, out@, items@));
    }
    out
}

/// A refresh of `entries` with the listing `apps` takes the listing over.
pub open spec fn refresh_changes(entries: Seq<AppEntry>, apps: Seq<AppEntry>) -> bool {
    id_set(entries) != id_set(apps)
}

/// The entries after a refresh of `entries` with the listing `apps`.
pub open spec fn refreshed(entries: Seq<AppEntry>, apps: Seq<AppEntry>) -> Seq<AppEntry> {
    if refresh_changes(entries, apps) {
        unique_by_id(apps)
    } else {
        entries
    }
}

/// The installed applications, each once, in the order in which a search
/// walks them. They are kept in a `Vec` keyed by identity, with the type
/// invariant that no identity repeats, rather than in a hash set: a search
/// keeps the first ten matches of its walk, and a hash set's walk order is
/// unspecified (and, with a per-process seeded hasher, changes from run to
/// run), so no contract could say which ten. The `Vec` fixes that order as
/// the order of the listing, one of the orders a set could have walked.
pub struct AppIndex {
    apps: Vec<AppEntry>,
}

impl AppIndex {
    /// Each identity occurs once, as in a set of objects.
    #[verifier::type_invariant]
    spec fn each_identity_once(self) -> bool {
        ids_distinct(self.apps@)
    }
}

impl View for AppIndex {
    type V = Seq<AppEntry>;

    closed spec fn view(&self) -> Seq<AppEntry> {
        self.apps@
    }
}

/// Whether some entry of `s` has identity `id`.
fn contains_id(s: &Vec<AppEntry>, id: u64) -> (r: bool)
    ensures
        r == has_id(s@, id),
{
    let mut i: usize = 0;
    while i < s.len()
        invariant
            i <= s.len(),
            forall|k: int| 0 <= k < i ==> #[trigger] s@[k].id != id,
        decreases s.len() - i,
    {
        if s[i].id == id {
            return true;
        }
        i += 1;
    }
    false
}

/// Whether every identity of `a` is an identity of `b`.
fn ids_within(a: &Vec<AppEntry>, b: &Vec<AppEntry>) -> (r: bool)
    ensures
        r == id_set(a@).subset_of(id_set(b@)),
{
    let mut i: usize = 0;
    while i < a.len()
        invariant
            i <= a.len(),
            forall|k: int| 0 <= k < i ==> has_id(b@, #[trigger] a@[k].id),
        decreases a.len() - i,
    {
        if !contains_id(b, a[i].id) {
            assert(id_set(a@).contains(a@[i as int].id));
            return false;
        }
        i += 1;
    }
    assert forall|id: u64| id_set(a@).contains(id) implies id_set(b@).contains(id) by {
        let k = choose|k: int| 0 <= k < a@.len() && #[trigger] a@[k].id == id;
        assert(has_id(b@, a@[k].id));
    }
    true
}

/// `apps` with repeated identities dropped, the first of each kept.
fn unique_entries(apps: &Vec<AppEntry>) -> (r: Vec<AppEntry>)
    ensures
        r@ == unique_by_id(apps@),
{
    let mut r: Vec<AppEntry> = Vec::new();
    let mut i: usize = 0;
    while i < apps.len()
        invariant
            i <= apps.len(),
            r@ == unique_by_id(apps@.take(i as int)),
        decreases apps.len() - i,
    {
        assert(apps@.take(i + 1).drop_last() =~= apps@.take(i as int));
        if !contains_id(&r, apps[i].id) {
            r.push(apps[i].duplicate());
        }
        i += 1;
    }
    assert(apps@.take(i as int) =~= apps@);
    r
}

impl AppIndex {
    /// An index of `apps`, each identity kept once (the first occurrence).
    pub fn new(apps: Vec<AppEntry>) -> (r: Self)
        ensures
            r@ == unique_by_id(apps@),
            ids_distinct(r@),
            id_set(r@) == id_set(apps@),
    {
        proof {
            lemma_unique_by_id(apps@);
        }
        AppIndex { apps: unique_entries(&apps) }
    }

    /// The entries, in the order in which searches walk them.
    pub fn entries(&self) -> (r: &Vec<AppEntry>)
        ensures
            r@ == self@,
            ids_distinct(r@),
    {
        proof {
            use_type_invariant(self);
        }
        &self.apps
    }

    /// A fresh listing of the installed applications came in: the index takes
    /// it over when its identities differ from the current ones, and is left
    /// as it is otherwise. Returns whether it changed.
    pub fn refresh(&mut self, apps: Vec<AppEntry>) -> (changed: bool)
        ensures
            changed == refresh_changes(old(self)@, apps@),
            final(self)@ == refreshed(old(self)@, apps@),
            changed == (id_set(old(self)@) != id_set(apps@)),
            changed ==> final(self)@ == unique_by_id(apps@),
            !changed ==> final(self)@ == old(self)@,
            id_set(final(self)@) == id_set(apps@),
            ids_distinct(final(self)@),
    {
        proof {
            use_type_invariant(&*self);
            lemma_unique_by_id(apps@);
        }
        let fresh = unique_entries(&apps);
        let same = ids_within(&self.apps, &fresh) && ids_within(&fresh, &self.apps);
        proof {
            if same {
                assert(id_set(self.apps@) =~= id_set(fresh@));
            }
        }
        if !same {
            self.apps = fresh;
        }
        proof {
            if same {
                assert(id_set(self.apps@) == id_set(apps@));
            }
        }
        !same
    }

    /// The applications whose display name contains `query`, ignoring case:
    /// nothing for an empty query, else the first ten matches in index order,
    /// sorted by name ignoring case (equal names keep their order).
    pub fn search(&self, query: &str) -> (r: Vec<AppEntry>)
        ensures
            query@.len() == 0 ==> r@.len() == 0,
            query@.len() > 0 ==> stably_sorted_by_name(
                r@,
                first_n(matching_apps(self@, spec_to_lowercase(query@)), MAX_APP_RESULTS as nat),
            ),
            query@.len() > 0 && is_ascii_chars(query@) ==> stably_sorted_by_name(
                r@,
                first_n(matching_apps(self@, ascii_lower(query@)), MAX_APP_RESULTS as nat),
            ),
    {
        if query.is_empty() {
            return Vec::new();
        }
        let lowered = to_lowercase(query);
        let q = chars_of(lowered.as_str());
        let ghost qs = spec_to_lowercase(query@);
        let mut found: Vec<AppEntry> = Vec::new();
        let mut i: usize = 0;
        while i < self.apps.len()
            invariant
                i <= self.apps.len(),
                q@ == qs,
                found@ == first_n(matching_apps(self.apps@.take(i as int), qs), MAX_APP_RESULTS as nat),
            decreases self.apps.len() - i,
        {
            assert(self.apps@.take(i + 1).drop_last() =~= self.apps@.take(i as int));
            let ghost prev = matching_apps(self.apps@.take(i as int), qs);
            if found.len() < MAX_APP_RESULTS {
                let d = chars_of(to_lowercase(self.apps[i].display_name.as_str()).as_str());
                if contains_chars(&d, &q) {
                    found.push(self.apps[i].duplicate());
                }
            } else {
                proof {
                    let next = matching_apps(self.apps@.take(i + 1), qs);
                    assert(first_n(next, MAX_APP_RESULTS as nat) =~= first_n(prev, MAX_APP_RESULTS as nat));
                }
            }
            i += 1;
        }
        assert(self.apps@.take(i as int) =~= self.apps@);
        sort_by_name(&found)
    }
}

/// Every entry that matches comes from the index and matches.
proof fn lemma_matching_apps(apps: Seq<AppEntry>, q: Seq<char>)
    ensures
        matching_apps(apps, q).len() <= apps.len(),
        forall|k: int|
            0 <= k < matching_apps(apps, q).len() ==> apps.contains(
                #[trigger] matching_apps(apps, q)[k],
            ) && app_matches(matching_apps(apps, q)[k], q),
    decreases apps.len(),
{
    if apps.len() > 0 {
        lemma_matching_apps(apps.drop_last(), q);
        let m = matching_apps(apps, q);
        let rest = matching_apps(apps.drop_last(), q);
        assert forall|k: int| 0 <= k < m.len() implies apps.contains(#[trigger] m[k]) && app_matches(m[k], q) by {
            if k < rest.len() {
                assert(m[k] == rest[k]);
                assert(apps.drop_last().contains(rest[k]));
                let t = choose|t: int| 0 <= t < apps.drop_last().len() && apps.drop_last()[t] == rest[k];
                assert(apps[t] == m[k]);
            } else {
                assert(m[k] == apps[apps.len() - 1]);
            }
        }
    }
}

/// Every entry of the index that matches is among the matches.
proof fn lemma_matching_apps_complete(apps: Seq<AppEntry>, q: Seq<char>)
    ensures
        forall|k: int|
            0 <= k < apps.len() && app_matches(#[trigger] apps[k], q) ==> matching_apps(
                apps,
                q,
            ).contains(apps[k]),
    decreases apps.len(),
{
    if apps.len() > 0 {
        let rest = apps.drop_last();
        lemma_matching_apps_complete(rest, q);
        let m = matching_apps(apps, q);
        let mr = matching_apps(rest, q);
        assert forall|k: int| 0 <= k < apps.len() && app_matches(#[trigger] apps[k], q) implies m.contains(apps[k]) by {
            if k < rest.len() {
                assert(rest[k] == apps[k]);
                assert(mr.contains(rest[k]));
                let t = choose|t: int| 0 <= t < mr.len() && mr[t] == rest[k];
                assert(m[t] == mr[t]);
            } else {
                assert(m[m.len() - 1] == apps[k]);
            }
        }
    }
}

/// `q` occurs in `h` starting at some position: the characters of `h` from
/// there on are those of `q`.
pub open spec fn occurs_at_some_position(q: Seq<char>, h: Seq<char>) -> bool {
    exists|i: int| 0 <= i && i + q.len() <= h.len() && #[trigger] h.subrange(i, i + q.len()) == q
}

/// The query may occur anywhere in the display name: over an index of at
/// most ten entries, a search returns exactly the entries whose case-folded
/// display name holds the case-folded query as a contiguous run of
/// characters, at any position; and any search returns only such entries.
pub proof fn law_search_finds_query_anywhere(apps: Seq<AppEntry>, lowered_query: Seq<char>, r: Seq<AppEntry>)
    requires
        stably_sorted_by_name(r, first_n(matching_apps(apps, lowered_query), MAX_APP_RESULTS as nat)),
    ensures
        forall|k: int|
            0 <= k < r.len() ==> occurs_at_some_position(
                lowered_query,
                spec_to_lowercase((#[trigger] r[k]).display_name@),
            ),
        apps.len() <= MAX_APP_RESULTS ==> forall|k: int|
            0 <= k < apps.len() ==> (r.contains(#[trigger] apps[k]) <==> occurs_at_some_position(
                lowered_query,
                spec_to_lowercase(apps[k].display_name@),
            )),
{
    broadcast use vstd::seq_lib::group_to_multiset_ensures;
    let m = matching_apps(apps, lowered_query);
    let s = first_n(m, MAX_APP_RESULTS as nat);
    law_search_results_are_matches(apps, lowered_query, r);
    lemma_matching_apps(apps, lowered_query);
    lemma_matching_apps_complete(apps, lowered_query);
    let p = choose|p: Seq<int>| stable_placement(p, r, s);
    lemma_placement_multiset(p, r, s);
    assert forall|k: int| 0 <= k < r.len() implies occurs_at_some_position(
        lowered_query,
        spec_to_lowercase((#[trigger] r[k]).display_name@),
    ) by {
        assert(app_matches(r[k], lowered_query));
    }
    if apps.len() <= MAX_APP_RESULTS {
        assert(s == m);
        assert forall|k: int| 0 <= k < apps.len() implies (r.contains(#[trigger] apps[k])
            <==> occurs_at_some_position(lowered_query, spec_to_lowercase(apps[k].display_name@))) by {
            let e = apps[k];
            assert(r.contains(e) <==> r.to_multiset().count(e) > 0);
            assert(m.contains(e) <==> m.to_multiset().count(e) > 0);
            if m.contains(e) {
                let j = choose|j: int| 0 <= j < m.len() && m[j] == e;
                assert(app_matches(m[j], lowered_query));
            }
            if occurs_at_some_position(lowered_query, spec_to_lowercase(e.display_name@)) {
                assert(app_matches(e, lowered_query));
                assert(m.contains(e));
            }
        }
    }
}

/// A search returns at most ten applications, each one from the index and
/// each one whose case-folded display name contains the case-folded query.
pub proof fn law_search_results_are_matches(apps: Seq<AppEntry>, lowered_query: Seq<char>, r: Seq<AppEntry>)
    requires
        stably_sorted_by_name(r, first_n(matching_apps(apps, lowered_query), MAX_APP_RESULTS as nat)),
    ensures
        r.len() <= MAX_APP_RESULTS,
        forall|k: int| 0 <= k < r.len() ==> apps.contains(#[trigger] r[k]) && app_matches(r[k], lowered_query),
{
    let m = matching_apps(apps, lowered_query);
    let s = first_n(m, MAX_APP_RESULTS as nat);
    lemma_matching_apps(apps, lowered_query);
    let p = choose|p: Seq<int>| stable_placement(p, r, s);
    assert forall|k: int| 0 <= k < r.len() implies apps.contains(#[trigger] r[k]) && app_matches(r[k], lowered_query) by {
        let j = p[k];
        assert(r[k] == s[j]);
        assert(s[j] == m[j]);
    }
}

/// A search returns exactly the matches it would list first, each once:
/// the first ten matches in index order (or all of them when fewer), rearranged.
pub proof fn law_search_keeps_first_matches(apps: Seq<AppEntry>, lowered_query: Seq<char>, r: Seq<AppEntry>)
    requires
        stably_sorted_by_name(r, first_n(matching_apps(apps, lowered_query), MAX_APP_RESULTS as nat)),
    ensures
        r.to_multiset() == first_n(matching_apps(apps, lowered_query), MAX_APP_RESULTS as nat).to_multiset(),
{
    let s = first_n(matching_apps(apps, lowered_query), MAX_APP_RESULTS as nat);
    let p = choose|p: Seq<int>| stable_placement(p, r, s);
    lemma_placement_multiset(p, r, s);
}

/// The placement `p` with the last position of `r` taken out, and with the
/// position it came from taken out of `s`.
pub open spec fn placement_without_last(p: Seq<int>) -> Seq<int> {
    let j = p.last();
    Seq::new((p.len() - 1) as nat, |k: int| if p[k] < j { p[k] } else { p[k] - 1 })
}

/// Taking out the last entry of an arrangement and its origin keeps a placement.
proof fn lemma_placement_drop_last(p: Seq<int>, r: Seq<AppEntry>, s: Seq<AppEntry>)
    requires
        stable_placement(p, r, s),
        r.len() > 0,
    ensures
        stable_placement(placement_without_last(p), r.drop_last(), s.remove(p.last())),
{
    let n = r.len() - 1;
    let j = p[n];
    let r2 = r.drop_last();
    let s2 = s.remove(j);
    let p2 = placement_without_last(p);
    assert forall|k: int| 0 <= k < r2.len() implies 0 <= #[trigger] p2[k] < s2.len() && r2[k] == s2[p2[k]] by {
        assert(p[k] != j);
    }
    assert forall|k1: int, k2: int| 0 <= k1 < k2 < r2.len() implies p2[k1] != p2[k2] by {
        assert(p[k1] != j);
        assert(p[k2] != j);
    }
    assert forall|k1: int, k2: int|
        0 <= k1 < k2 < r2.len() && name_key(r2[k1]) == name_key(r2[k2]) implies p2[k1] < p2[k2] by {
        assert(p[k1] != j);
        assert(p[k2] != j);
    }
}

/// A placement that maps positions one to one carries the same multiset.
proof fn lemma_placement_multiset(p: Seq<int>, r: Seq<AppEntry>, s: Seq<AppEntry>)
    requires
        stable_placement(p, r, s),
    ensures
        r.to_multiset() == s.to_multiset(),
    decreases r.len(),
{
    broadcast use vstd::seq_lib::group_to_multiset_ensures;
    if r.len() > 0 {
        let n = r.len() - 1;
        let j = p[n];
        lemma_placement_drop_last(p, r, s);
        lemma_placement_multiset(placement_without_last(p), r.drop_last(), s.remove(j));
        assert(r =~= r.drop_last().push(r[n]));
        assert(r.to_multiset() == r.drop_last().to_multiset().insert(r[n]));
        assert(s.remove(j).to_multiset() == s.to_multiset().remove(s[j]));
        assert(s.contains(s[j]));
        assert(s.to_multiset() =~= s.remove(j).to_multiset().insert(s[j]));
    }
}

/// Every position of `s` is the origin of some position of `r`.
proof fn lemma_placement_onto(p: Seq<int>, r: Seq<AppEntry>, s: Seq<AppEntry>)
    requires
        stable_placement(p, r, s),
    ensures
        forall|i: int| 0 <= i < s.len() ==> p.contains(i),
{
    assert(p.no_duplicates()) by {
        assert forall|a: int, b: int| 0 <= a < p.len() && 0 <= b < p.len() && a != b implies p[a] != p[b] by {
            if a > b {
                assert(p[b] != p[a]);
            }
        }
    }
    p.unique_seq_to_set();
    vstd::set_lib::lemma_int_range(0, s.len() as int);
    let full = vstd::set_lib::set_int_range(0, s.len() as int);
    assert(p.to_set().subset_of(full));
    vstd::set_lib::lemma_subset_equality(p.to_set(), full);
    assert forall|i: int| 0 <= i < s.len() implies p.contains(i) by {
        assert(full.contains(i));
        assert(p.to_set().contains(i));
    }
}

/// Position `j` of `s` holds a greatest key, and no later position holds
/// the same key: the entry that a stable sort puts last.
pub open spec fn last_in_order(s: Seq<AppEntry>, j: int) -> bool {
    &&& 0 <= j < s.len()
    &&& forall|i: int| 0 <= i < s.len() ==> !lex_lt(name_key(s[j]), #[trigger] name_key(s[i]))
    &&& forall|i: int| j < i < s.len() ==> #[trigger] name_key(s[i]) != name_key(s[j])
}

/// A sorted stable arrangement ends with the entry that comes last in order.
proof fn lemma_last_placed(p: Seq<int>, r: Seq<AppEntry>, s: Seq<AppEntry>)
    requires
        stable_placement(p, r, s),
        sorted_by_name(r),
        r.len() > 0,
    ensures
        last_in_order(s, p.last()),
{
    let n = r.len() - 1;
    let j = p[n];
    lemma_placement_onto(p, r, s);
    assert forall|i: int| 0 <= i < s.len() implies !lex_lt(name_key(s[j]), #[trigger] name_key(s[i])) by {
        assert(p.contains(i));
        let k = choose|k: int| 0 <= k < p.len() && p[k] == i;
        if k == n {
            lemma_lex_irreflexive(name_key(s[j]));
        } else {
            assert(r[k] == s[i]);
        }
    }
    assert forall|i: int| j < i < s.len() implies #[trigger] name_key(s[i]) != name_key(s[j]) by {
        assert(p.contains(i));
        let k = choose|k: int| 0 <= k < p.len() && p[k] == i;
        assert(r[k] == s[i]);
    }
}

/// Only one position comes last in order.
proof fn lemma_last_in_order_unique(s: Seq<AppEntry>, j1: int, j2: int)
    requires
        last_in_order(s, j1),
        last_in_order(s, j2),
    ensures
        j1 == j2,
{
    lemma_lex_total(name_key(s[j1]), name_key(s[j2]));
    assert(!lex_lt(name_key(s[j1]), name_key(s[j2])));
    assert(!lex_lt(name_key(s[j2]), name_key(s[j1])));
    if j1 < j2 {
        assert(name_key(s[j2]) != name_key(s[j1]));
    } else if j2 < j1 {
        assert(name_key(s[j1]) != name_key(s[j2]));
    }
}

/// There is only one stable sort by name: two arrangements of the same
/// entries that are both sorted and stable are equal, so a search has
/// exactly one possible result.
pub proof fn law_stable_sort_is_unique(r1: Seq<AppEntry>, r2: Seq<AppEntry>, s: Seq<AppEntry>)
    requires
        stably_sorted_by_name(r1, s),
        stably_sorted_by_name(r2, s),
    ensures
        r1 == r2,
    decreases s.len(),
{
    let p1 = choose|p: Seq<int>| stable_placement(p, r1, s);
    let p2 = choose|p: Seq<int>| stable_placement(p, r2, s);
    if s.len() == 0 {
        assert(r1 =~= r2);
    } else {
        lemma_last_placed(p1, r1, s);
        lemma_last_placed(p2, r2, s);
        lemma_last_in_order_unique(s, p1.last(), p2.last());
        let j = p1.last();
        lemma_placement_drop_last(p1, r1, s);
        lemma_placement_drop_last(p2, r2, s);
        assert(sorted_by_name(r1.drop_last()));
        assert(sorted_by_name(r2.drop_last()));
        law_stable_sort_is_unique(r1.drop_last(), r2.drop_last(), s.remove(j));
        assert(r1 =~= r1.drop_last().push(s[j]));
        assert(r2 =~= r2.drop_last().push(s[j]));
    }
}

/// Search treats ASCII capital and small letters alike: two ASCII queries
/// that differ only in the case of their letters (such as a query and its
/// `to_ascii_uppercase`) have the same length and give the same results.
pub proof fn law_search_ignores_ascii_case(
    apps: Seq<AppEntry>,
    q1: Seq<char>,
    q2: Seq<char>,
    r1: Seq<AppEntry>,
    r2: Seq<AppEntry>,
)
    requires
        is_ascii_chars(q1),
        is_ascii_chars(q2),
        ascii_lower(q1) == ascii_lower(q2),
        stably_sorted_by_name(r1, first_n(matching_apps(apps, ascii_lower(q1)), MAX_APP_RESULTS as nat)),
        stably_sorted_by_name(r2, first_n(matching_apps(apps, ascii_lower(q2)), MAX_APP_RESULTS as nat)),
    ensures
        q1.len() == q2.len(),
        r1 == r2,
{
    assert(q1.len() == ascii_lower(q1).len());
    law_stable_sort_is_unique(r1, r2, first_n(matching_apps(apps, ascii_lower(q1)), MAX_APP_RESULTS as nat));
}

/// Refreshing twice with the same listing: the second refresh reports no
/// change and leaves the index as the first one left it.
pub proof fn law_refresh_settles(entries: Seq<AppEntry>, apps: Seq<AppEntry>)
    ensures
        !refresh_changes(refreshed(entries, apps), apps),
        refreshed(refreshed(entries, apps), apps) == refreshed(entries, apps),
{
    lemma_unique_by_id(apps);
}

} // verus!
