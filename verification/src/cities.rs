//! The user's city list: the city model, the preset catalog, the list mutations (reorder,
//! insert-or-replace, remove), route-key generation, and the decisions behind the city
//! management form.

use vstd::prelude::*;
use vstd::set_lib::{lemma_int_range, lemma_len_subset, lemma_map_size, set_int_range};
use crate::text::{
    ascii_lower, chars_of, decimal, digit_char, digit_value, digits_value, is_ascii_alnum,
    is_ascii_alphanumeric, is_digit, push_char, str_eq, to_ascii_lower, trim, trim_spec,
    write_decimal,
};

verus! {

/// One city on the list. `id` is the route key (stable across edits) and the mock-weather
/// seed; an empty `name` means "not renamed" (the display name then comes from the catalog
/// by id); `position` is where the city lies, carried through untouched.
pub struct City<P> {
    pub id: String,
    pub name: String,
    pub position: P,
}

/// The id the "Use current location" button writes (each fix replaces the previous one).
pub const MY_LOCATION: &'static str = "my-location";

/// How many cities the catalog offers.
pub const PRESET_COUNT: usize = 10;

/// How many catalog cities seed a fresh install (the first ones).
pub const DEFAULT_COUNT: usize = 5;

/// The ids of the catalog cities, in catalog order.
pub open spec fn preset_ids() -> Seq<Seq<char>> {
    seq![
        "san-francisco"@,
        "new-york"@,
        "london"@,
        "tokyo"@,
        "sydney"@,
        "paris"@,
        "berlin"@,
        "cairo"@,
        "singapore"@,
        "toronto"@,
    ]
}

/// The id of catalog city `i`.
pub fn preset_id(i: usize) -> (id: &'static str)
    requires
        i < PRESET_COUNT,
    ensures
        id@ == preset_ids()[i as int],
{
    match i {
        0 => "san-francisco",
        1 => "new-york",
        2 => "london",
        3 => "tokyo",
        4 => "sydney",
        5 => "paris",
        6 => "berlin",
        7 => "cairo",
        8 => "singapore",
        _ => "toronto",
    }
}

/// The catalog index of the city with id `id`.
pub fn preset_index(id: &str) -> (r: Option<usize>)
    ensures
        match r {
            Some(i) => i < PRESET_COUNT && preset_ids()[i as int] == id@ && forall|j: int|
                0 <= j < i ==> preset_ids()[j] != id@,
            None => forall|j: int| 0 <= j < PRESET_COUNT ==> preset_ids()[j] != id@,
        },
{
    let mut i: usize = 0;
    while i < PRESET_COUNT
        invariant
            i <= PRESET_COUNT,
            forall|j: int| 0 <= j < i ==> preset_ids()[j] != id@,
        decreases PRESET_COUNT - i,
    {
        if str_eq(preset_id(i), id) {
            return Some(i);
        }
        i = i + 1;
    }
    None
}

/// Where a city's display name comes from.
pub enum Title {
    /// User text: the city's own name, or its id for a nameless city off the catalog.
    Custom(String),
    /// The localized "My location".
    MyLocation,
    /// The localized name of catalog city `i`.
    Preset(usize),
}

/// A city's display name: user text when renamed, else "My location" for the location
/// entry, else the catalog name by id, else the id itself.
pub fn title<P>(city: &City<P>) -> (t: Title)
    ensures
        match t {
            Title::Custom(s) => if city.name@.len() > 0 {
                s@ == city.name@
            } else {
                city.id@ != MY_LOCATION@ && s@ == city.id@ && forall|j: int|
                    0 <= j < PRESET_COUNT ==> preset_ids()[j] != city.id@
            },
            Title::MyLocation => city.name@.len() == 0 && city.id@ == MY_LOCATION@,
            Title::Preset(i) => city.name@.len() == 0 && city.id@ != MY_LOCATION@ && i
                < PRESET_COUNT && preset_ids()[i as int] == city.id@,
        },
{
    if !city.name.as_str().is_empty() {
        return Title::Custom(city.name.clone());
    }
    if str_eq(city.id.as_str(), MY_LOCATION) {
        return Title::MyLocation;
    }
    match preset_index(city.id.as_str()) {
        Some(i) => Title::Preset(i),
        None => Title::Custom(city.id.clone()),
    }
}

/// The ids of a list of cities, in order.
pub open spec fn ids<P>(v: Seq<City<P>>) -> Seq<Seq<char>> {
    v.map_values(|c: City<P>| c.id@)
}

/// No two cities on the list share an id.
pub open spec fn ids_distinct<P>(v: Seq<City<P>>) -> bool {
    forall|i: int, j: int| 0 <= i < v.len() && 0 <= j < v.len() && i != j ==> v[i].id@ != v[j].id@
}

/// Whether some city on the list has id `id`.
pub open spec fn has_id<P>(v: Seq<City<P>>, id: Seq<char>) -> bool {
    exists|i: int| 0 <= i < v.len() && v[i].id@ == id
}

/// The first position from `j` on holding id `id`.
pub open spec fn first_from<P>(v: Seq<City<P>>, id: Seq<char>, j: int) -> Option<int>
    decreases v.len() - j,
{
    if j < 0 || j >= v.len() {
        None
    } else if v[j].id@ == id {
        Some(j)
    } else {
        first_from(v, id, j + 1)
    }
}

/// The first position on the list holding id `id`.
pub open spec fn first_with_id<P>(v: Seq<City<P>>, id: Seq<char>) -> Option<int> {
    first_from(v, id, 0)
}

proof fn lemma_first_from<P>(v: Seq<City<P>>, id: Seq<char>, j: int)
    requires
        0 <= j <= v.len(),
    ensures
        match first_from(v, id, j) {
            Some(k) => j <= k < v.len() && v[k].id@ == id && forall|m: int|
                j <= m < k ==> v[m].id@ != id,
            None => forall|m: int| j <= m < v.len() ==> v[m].id@ != id,
        },
    decreases v.len() - j,
{
    if j < v.len() && v[j].id@ != id {
        lemma_first_from(v, id, j + 1);
    }
}

/// What `first_with_id` says of the list.
pub proof fn lemma_first_with_id_found<P>(v: Seq<City<P>>, id: Seq<char>)
    ensures
        match first_with_id(v, id) {
            Some(k) => 0 <= k < v.len() && v[k].id@ == id && forall|m: int|
                0 <= m < k ==> v[m].id@ != id,
            None => !has_id(v, id),
        },
{
    lemma_first_from(v, id, 0);
}

/// The position of the first city with id `id`.
pub fn position_of<P>(v: &Vec<City<P>>, id: &str) -> (r: Option<usize>)
    ensures
        match r {
            Some(i) => i < v@.len() && v@[i as int].id@ == id@ && forall|j: int|
                0 <= j < i ==> v@[j].id@ != id@,
            None => !has_id(v@, id@),
        },
{
    let mut i: usize = 0;
    while i < v.len()
        invariant
            i <= v@.len(),
            forall|j: int| 0 <= j < i ==> v@[j].id@ != id@,
        decreases v@.len() - i,
    {
        if str_eq(v[i].id.as_str(), id) {
            return Some(i);
        }
        i = i + 1;
    }
    None
}

proof fn lemma_first_with_id<P>(v: Seq<City<P>>, id: Seq<char>, i: int)
    requires
        0 <= i < v.len(),
        v[i].id@ == id,
        forall|j: int| 0 <= j < i ==> v[j].id@ != id,
    ensures
        first_with_id(v, id) == Some(i),
{
    lemma_first_from(v, id, 0);
}

/// The test that keeps the cities whose id is not `id`.
pub open spec fn id_is_not<P>(id: Seq<char>) -> spec_fn(City<P>) -> bool {
    |c: City<P>| c.id@ != id
}

/// `v` with the entry at `from` taken out and put back at `to`; unchanged where either
/// position is out of range.
pub open spec fn moved<T>(v: Seq<T>, from: int, to: int) -> Seq<T> {
    if 0 <= from < v.len() && 0 <= to < v.len() {
        v.remove(from).insert(to, v[from])
    } else {
        v
    }
}

/// `v` after insert-or-replace of `city` by id.
pub open spec fn upserted<P>(v: Seq<City<P>>, city: City<P>) -> Seq<City<P>> {
    match first_with_id(v, city.id@) {
        Some(k) => v.update(k, city),
        None => v.push(city),
    }
}

/// `v` without the cities whose id is `id`.
pub open spec fn without<P>(v: Seq<City<P>>, id: Seq<char>) -> Seq<City<P>> {
    v.filter(id_is_not(id))
}

/// Drag-to-reorder: the city at `from` now sits at `to`; out-of-range positions leave the
/// list as it is.
pub fn move_city<T>(v: &mut Vec<T>, from: usize, to: usize)
    ensures
        final(v)@ == moved(old(v)@, from as int, to as int),
{
    if from < v.len() && to < v.len() {
        let c = v.remove(from);
        v.insert(to, c);
    }
}

/// Insert-or-replace by id: the first city with the same id is replaced, else the city is
/// appended.
pub fn upsert<P>(v: &mut Vec<City<P>>, city: City<P>)
    ensures
        final(v)@ == upserted(old(v)@, city),
{
    match position_of(v, city.id.as_str()) {
        Some(k) => {
            proof {
                lemma_first_with_id(v@, city.id@, k as int);
            }
            v.set(k, city);
        },
        None => {
            proof {
                lemma_first_from(v@, city.id@, 0);
            }
            v.push(city);
        },
    }
}

/// Removes every city with id `id`, keeping the others in order.
pub fn remove<P>(v: &mut Vec<City<P>>, id: &str)
    ensures
        final(v)@ == without(old(v)@, id@),
        final(v)@ == old(v)@.filter(|c: City<P>| c.id@ != id@),
{
    let ghost keep = id_is_not::<P>(id@);
    assert(keep =~= (|c: City<P>| c.id@ != id@));
    let mut all: Vec<City<P>> = Vec::new();
    std::mem::swap(&mut all, v);
    let ghost all0 = all@;
    assert(all0.take(0).filter(keep) =~= Seq::<City<P>>::empty()) by {
        reveal(Seq::filter);
    }
    for c in it: all
        invariant
            it.seq() == all0,
            keep == id_is_not::<P>(id@),
            v@ == all0.take(it.index() as int).filter(keep),
    {
        let ghost i = it.index();
        proof {
            reveal(Seq::filter);
            assert(all0.take(i + 1).drop_last() =~= all0.take(i as int));
            assert(c == all0[i as int]);
            let t = all0.take(i + 1);
            assert(t.last() == c);
            assert(t.filter(keep) == (if keep(t.last()) {
                t.drop_last().filter(keep).push(t.last())
            } else {
                t.drop_last().filter(keep)
            }));
        }
        if !str_eq(c.id.as_str(), id) {
            v.push(c);
        }
    }
    assert(all0.take(all0.len() as int) =~= all0);
}


/// Moving an entry from `from` to `to` and then from `to` back to `from` restores the list.
pub proof fn lemma_move_back<T>(v: Seq<T>, from: int, to: int)
    ensures
        moved(moved(v, from, to), to, from) == v,
{
    if 0 <= from < v.len() && 0 <= to < v.len() {
        let w = moved(v, from, to);
        let r = v.remove(from);
        assert(w.len() == v.len());
        assert(w[to] == v[from]);
        assert(w.remove(to) =~= r);
        assert(r.insert(from, v[from]) =~= v);
    }
}

/// Reordering keeps the same cities: only their order changes.
pub proof fn lemma_move_permutes<T>(v: Seq<T>, from: int, to: int)
    ensures
        moved(v, from, to).to_multiset() == v.to_multiset(),
        moved(v, from, to).len() == v.len(),
{
    broadcast use vstd::seq_lib::group_to_multiset_ensures;
    if 0 <= from < v.len() && 0 <= to < v.len() {
        let r = v.remove(from);
        let x = v[from];
        assert(v =~= v.subrange(0, from) + seq![x] + v.subrange(from + 1, v.len() as int));
        assert(r =~= v.subrange(0, from) + v.subrange(from + 1, v.len() as int));
        vstd::seq_lib::lemma_multiset_commutative(v.subrange(0, from) + seq![x], v.subrange(from + 1, v.len() as int));
        vstd::seq_lib::lemma_multiset_commutative(v.subrange(0, from), seq![x]);
        vstd::seq_lib::lemma_multiset_commutative(v.subrange(0, from), v.subrange(from + 1, v.len() as int));
        let w = r.insert(to, x);
        assert(w =~= r.subrange(0, to) + seq![x] + r.subrange(to, r.len() as int));
        assert(r =~= r.subrange(0, to) + r.subrange(to, r.len() as int));
        vstd::seq_lib::lemma_multiset_commutative(r.subrange(0, to) + seq![x], r.subrange(to, r.len() as int));
        vstd::seq_lib::lemma_multiset_commutative(r.subrange(0, to), seq![x]);
        vstd::seq_lib::lemma_multiset_commutative(r.subrange(0, to), r.subrange(to, r.len() as int));
    }
}

/// Reordering keeps the ids distinct.
pub proof fn lemma_move_keeps_ids_distinct<P>(v: Seq<City<P>>, from: int, to: int)
    requires
        ids_distinct(v),
    ensures
        ids_distinct(moved(v, from, to)),
{
    if 0 <= from < v.len() && 0 <= to < v.len() {
        let w = moved(v, from, to);
        let r = v.remove(from);
        // each position of w holds the entry of v at a position that depends injectively on it
        let src = |i: int| if i == to {
            from
        } else {
            let j = if i < to { i } else { i - 1 };
            if j < from { j } else { j + 1 }
        };
        assert forall|i: int| 0 <= i < w.len() implies #[trigger] w[i] == v[src(i)] && 0 <= src(i) < v.len() by {
        }
        assert forall|i: int, j: int| 0 <= i < w.len() && 0 <= j < w.len() && i != j implies w[i].id@ != w[j].id@ by {
            assert(w[i] == v[src(i)]);
            assert(w[j] == v[src(j)]);
        }
    }
}

/// After insert-or-replace the list holds the city; the ids stay distinct, and the list
/// grows by at most one.
pub proof fn lemma_upsert_holds_city<P>(v: Seq<City<P>>, city: City<P>)
    requires
        ids_distinct(v),
    ensures
        ids_distinct(upserted(v, city)),
        has_id(upserted(v, city), city.id@),
        upserted(v, city).contains(city),
        upserted(v, city).len() == v.len() + (if has_id(v, city.id@) {
            0int
        } else {
            1int
        }),
{
    let w = upserted(v, city);
    lemma_first_with_id_found(v, city.id@);
    match first_with_id(v, city.id@) {
        Some(k) => {
            assert(w[k] == city);
            assert forall|i: int, j: int| 0 <= i < w.len() && 0 <= j < w.len() && i != j implies w[i].id@ != w[j].id@ by {
                if i == k {
                    assert(v[k].id@ == city.id@);
                } else if j == k {
                    assert(v[k].id@ == city.id@);
                }
            }
        },
        None => {
            assert(w[v.len() as int] == city);
        },
    }
}

/// Insert-or-replace followed by removal of the same id leaves the list as removal alone
/// would.
pub proof fn lemma_upsert_then_remove<P>(v: Seq<City<P>>, city: City<P>)
    ensures
        without(upserted(v, city), city.id@) == without(v, city.id@),
    decreases v.len(),
{
    reveal(Seq::filter);
    let p = id_is_not::<P>(city.id@);
    lemma_first_with_id_found(v, city.id@);
    match first_with_id(v, city.id@) {
        Some(k) => {
            lemma_filter_update_dropped(v, k, city, p);
        },
        None => {
            let w = v.push(city);
            assert(w.drop_last() =~= v);
        },
    }
}

proof fn lemma_filter_update_dropped<A>(v: Seq<A>, k: int, x: A, p: spec_fn(A) -> bool)
    requires
        0 <= k < v.len(),
        !p(x),
        !p(v[k]),
    ensures
        v.update(k, x).filter(p) == v.filter(p),
    decreases v.len(),
{
    reveal(Seq::filter);
    let w = v.update(k, x);
    if k == v.len() - 1 {
        assert(w.drop_last() =~= v.drop_last());
    } else {
        assert(w.drop_last() =~= v.drop_last().update(k, x));
        lemma_filter_update_dropped(v.drop_last(), k, x, p);
    }
}

/// Removing an id that exactly one city carries takes out that city alone and keeps the
/// others in their order.
pub proof fn lemma_remove_single<P>(v: Seq<City<P>>, id: Seq<char>, k: int)
    requires
        0 <= k < v.len(),
        v[k].id@ == id,
        forall|j: int| 0 <= j < v.len() && j != k ==> v[j].id@ != id,
    ensures
        without(v, id) == v.remove(k),
{
    let p = id_is_not::<P>(id);
    let a = v.subrange(0, k);
    let x = seq![v[k]];
    let b = v.subrange(k + 1, v.len() as int);
    assert(v =~= a + x + b);
    Seq::filter_distributes_over_add(a + x, b, p);
    Seq::filter_distributes_over_add(a, x, p);
    lemma_filter_all_kept(a, p);
    lemma_filter_all_kept(b, p);
    assert(x.filter(p) =~= Seq::<City<P>>::empty()) by {
        reveal(Seq::filter);
        assert(x.drop_last() =~= Seq::<City<P>>::empty());
        assert(x.drop_last().filter(p) =~= Seq::<City<P>>::empty());
    }
    assert(v.remove(k) =~= a + b);
}

/// After removal no city carries the id; the others stay, in order, with distinct ids if
/// they had them; removing again changes nothing.
pub proof fn lemma_remove_clears<P>(v: Seq<City<P>>, id: Seq<char>)
    ensures
        !has_id(without(v, id), id),
        forall|c: City<P>| v.contains(c) && c.id@ != id ==> #[trigger] without(v, id).contains(c),
        ids_distinct(v) ==> ids_distinct(without(v, id)),
        without(without(v, id), id) == without(v, id),
    decreases v.len(),
{
    broadcast use vstd::seq_lib::group_filter_ensures;
    let p = id_is_not::<P>(id);
    let w = without(v, id);
    assert forall|i: int| 0 <= i < w.len() implies w[i].id@ != id by {
        v.lemma_filter_pred(p, i);
    }
    assert forall|c: City<P>| v.contains(c) && c.id@ != id implies #[trigger] w.contains(c) by {
        let i = choose|i: int| 0 <= i < v.len() && v[i] == c;
        v.lemma_filter_contains(p, i);
    }
    if ids_distinct(v) {
        lemma_filter_keeps_distinct(v, id);
    }
    lemma_filter_all_kept(w, p);
}

proof fn lemma_filter_all_kept<A>(v: Seq<A>, p: spec_fn(A) -> bool)
    requires
        forall|i: int| 0 <= i < v.len() ==> p(v[i]),
    ensures
        v.filter(p) == v,
    decreases v.len(),
{
    reveal(Seq::filter);
    if v.len() > 0 {
        lemma_filter_all_kept(v.drop_last(), p);
        assert(v.drop_last().push(v.last()) =~= v);
    }
}

proof fn lemma_filter_keeps_distinct<P>(v: Seq<City<P>>, id: Seq<char>)
    requires
        ids_distinct(v),
    ensures
        ids_distinct(without(v, id)),
    decreases v.len(),
{
    reveal(Seq::filter);
    if v.len() > 0 {
        let d = v.drop_last();
        assert(ids_distinct(d));
        lemma_filter_keeps_distinct(d, id);
        let r = without(d, id);
        if id_is_not::<P>(id)(v.last()) {
            let w = r.push(v.last());
            assert forall|i: int| 0 <= i < r.len() implies r[i].id@ != v.last().id@ by {
                broadcast use vstd::seq_lib::group_filter_ensures;
                d.lemma_filter_pred(id_is_not::<P>(id), i);
                let x = r[i];
                assert(r[i] == x);
                assert(r.contains(x));
                d.lemma_filter_contains_rev(id_is_not::<P>(id), x);
                let j = choose|j: int| 0 <= j < d.len() && d[j] == x;
                assert(v[j] == d[j]);
                assert(v[v.len() - 1] == v.last());
            }
            assert forall|i: int, j: int| 0 <= i < w.len() && 0 <= j < w.len() && i != j implies w[i].id@ != w[j].id@ by {
                if i == r.len() {
                    assert(w[j] == r[j]);
                } else if j == r.len() {
                    assert(w[i] == r[i]);
                } else {
                    assert(w[i] == r[i] && w[j] == r[j]);
                }
            }
        }
    }
}


/// The route key built from a name before its ends are cleaned: each character lowercased
/// (ASCII), ASCII letters and digits kept, and each run of anything else after some kept
/// character turned into one `-`.
pub open spec fn slug_raw(s: Seq<char>) -> Seq<char>
    decreases s.len(),
{
    if s.len() == 0 {
        Seq::<char>::empty()
    } else {
        let out = slug_raw(s.drop_last());
        let ch = ascii_lower(s.last());
        if is_ascii_alnum(ch) {
            out.push(ch)
        } else if out.len() > 0 && out.last() != '-' {
            out.push('-')
        } else {
            out
        }
    }
}

/// `s` without leading `-`.
pub open spec fn strip_start_dash(s: Seq<char>) -> Seq<char>
    decreases s.len(),
{
    if s.len() > 0 && s[0] == '-' {
        strip_start_dash(s.drop_first())
    } else {
        s
    }
}

/// `s` without trailing `-`.
pub open spec fn strip_end_dash(s: Seq<char>) -> Seq<char>
    decreases s.len(),
{
    if s.len() > 0 && s.last() == '-' {
        strip_end_dash(s.drop_last())
    } else {
        s
    }
}

/// The route key for a display name: lowercased ASCII alphanumerics, runs of everything else
/// collapsed to `-`, no `-` at either end; `city` where nothing survives.
pub open spec fn slug_spec(name: Seq<char>) -> Seq<char> {
    let t = strip_end_dash(strip_start_dash(slug_raw(name)));
    if t.len() == 0 {
        "city"@
    } else {
        t
    }
}

/// A character a route key may hold: a small ASCII letter, a digit, or `-`.
pub open spec fn is_slug_char(c: char) -> bool {
    is_digit(c) || ('a' <= c && c <= 'z') || c == '-'
}

/// The shape of a route key: not empty, made of small ASCII letters, digits and single `-`
/// between them.
pub open spec fn is_slug(s: Seq<char>) -> bool {
    &&& s.len() > 0
    &&& forall|i: int| 0 <= i < s.len() ==> is_slug_char(#[trigger] s[i])
    &&& s[0] != '-'
    &&& s.last() != '-'
    &&& forall|i: int| 0 <= i < s.len() - 1 ==> !(#[trigger] s[i] == '-' && s[i + 1] == '-')
}

/// A stable route key from a display name.
pub fn slug(name: &str) -> (r: String)
    ensures
        r@ == slug_spec(name@),
        r@ == slug_spec(lowered(name@)),
        name@.len() > 0 && (forall|i: int| 0 <= i < name@.len() ==> is_ascii_alnum(#[trigger] name@[i]))
            ==> r@ == lowered(name@),
        kept(name@).len() > 0 ==> undashed(r@) == kept(name@),
        kept(name@).len() == 0 ==> r@ == "city"@,
{
    proof {
        lemma_slug_ignores_case(name@);
        lemma_slug_of_alnum(name@);
        lemma_slug_keeps_alnum(name@);
    }
    let chars = chars_of(name);
    let n = chars.len();
    let mut out: Vec<char> = Vec::new();
    let mut i: usize = 0;
    assert(chars@.take(0) =~= Seq::<char>::empty());
    while i < n
        invariant
            n == chars@.len(),
            chars@ == name@,
            i <= n,
            out@ == slug_raw(chars@.take(i as int)),
        decreases n - i,
    {
        let ch = to_ascii_lower(chars[i]);
        proof {
            let p = chars@.take(i + 1);
            assert(p.drop_last() =~= chars@.take(i as int));
            assert(p.last() == chars@[i as int]);
        }
        if is_ascii_alphanumeric(ch) {
            out.push(ch);
        } else if out.len() > 0 && out[out.len() - 1] != '-' {
            out.push('-');
        }
        i = i + 1;
    }
    assert(chars@.take(n as int) =~= name@);
    let m = out.len();
    let mut a: usize = 0;
    assert(out@.skip(0) =~= out@);
    while a < m && out[a] == '-'
        invariant
            m == out@.len(),
            a <= m,
            strip_start_dash(out@) == strip_start_dash(out@.skip(a as int)),
        decreases m - a,
    {
        assert(out@.skip(a as int).drop_first() =~= out@.skip(a + 1));
        a = a + 1;
    }
    let ghost front = out@.skip(a as int);
    assert(strip_start_dash(front) == front);
    let mut b: usize = m;
    assert(front =~= out@.subrange(a as int, m as int));
    while b > a && out[b - 1] == '-'
        invariant
            m == out@.len(),
            a <= b <= m,
            front == out@.skip(a as int),
            strip_end_dash(front) == strip_end_dash(out@.subrange(a as int, b as int)),
        decreases b,
    {
        assert(out@.subrange(a as int, b as int).drop_last() =~= out@.subrange(a as int, b - 1));
        b = b - 1;
    }
    if a == b {
        return "city".to_owned();
    }
    let mut r = String::new();
    let mut k: usize = a;
    while k < b
        invariant
            a <= k <= b <= m,
            m == out@.len(),
            r@ == out@.subrange(a as int, k as int),
        decreases b - k,
    {
        push_char(&mut r, out[k]);
        assert(out@.subrange(a as int, k + 1) =~= out@.subrange(a as int, k as int).push(out@[k as int]));
        k = k + 1;
    }
    r
}

proof fn lemma_slug_raw_shape(s: Seq<char>)
    ensures
        ({
            let r = slug_raw(s);
            &&& forall|i: int| 0 <= i < r.len() ==> is_slug_char(#[trigger] r[i])
            &&& r.len() > 0 ==> r[0] != '-'
            &&& forall|i: int| 0 <= i < r.len() - 1 ==> !(#[trigger] r[i] == '-' && r[i + 1] == '-')
        }),
    decreases s.len(),
{
    if s.len() > 0 {
        lemma_slug_raw_shape(s.drop_last());
        let c = s.last();
        let ch = ascii_lower(c);
        if 'A' <= c && c <= 'Z' {
            assert('a' <= ch && ch <= 'z');
        }
    }
}

proof fn lemma_strip_end_prefix(s: Seq<char>)
    ensures
        ({
            let t = strip_end_dash(s);
            &&& t.len() <= s.len()
            &&& t == s.take(t.len() as int)
            &&& t.len() > 0 ==> t.last() != '-'
        }),
    decreases s.len(),
{
    if s.len() > 0 && s.last() == '-' {
        lemma_strip_end_prefix(s.drop_last());
        let t = strip_end_dash(s.drop_last());
        assert(s.drop_last().take(t.len() as int) =~= s.take(t.len() as int));
    } else {
        assert(s.take(s.len() as int) =~= s);
    }
}

/// Every route key has the slug shape: not empty, small ASCII letters, digits and single
/// `-` separators, with no `-` at either end.
pub proof fn lemma_slug_shape(name: Seq<char>)
    ensures
        is_slug(slug_spec(name)),
{
    let raw = slug_raw(name);
    lemma_slug_raw_shape(name);
    assert(strip_start_dash(raw) == raw);
    lemma_strip_end_prefix(raw);
    let t = strip_end_dash(raw);
    if t.len() == 0 {
        reveal_strlit("city");
    } else {
        assert forall|i: int| 0 <= i < t.len() implies is_slug_char(#[trigger] t[i]) by {
            assert(t[i] == raw[i]);
        }
        assert(t[0] == raw[0]);
        assert forall|i: int| 0 <= i < t.len() - 1 implies !(#[trigger] t[i] == '-' && t[i + 1] == '-') by {
            assert(t[i] == raw[i]);
            assert(t[i + 1] == raw[i + 1]);
        }
    }
}


/// The two route keys of the app's own pages, which city ids must never shadow.
pub open spec fn reserved(id: Seq<char>) -> bool {
    id == "cities"@ || id == "settings"@
}

/// Whether `id` cannot be given to a new city: it is reserved or on the list already.
pub open spec fn taken<P>(existing: Seq<City<P>>, id: Seq<char>) -> bool {
    reserved(id) || has_id(existing, id)
}

/// `base-n`.
pub open spec fn suffixed(base: Seq<char>, n: nat) -> Seq<char> {
    base + seq!['-'] + decimal(n)
}

/// Whether `r` is the id `unique_id` picks for `name`: the name's slug when that is free,
/// else `slug-n` for the least `n` from 2 on that is free.
pub open spec fn unique_id_spec<P>(name: Seq<char>, existing: Seq<City<P>>, r: Seq<char>) -> bool {
    let base = slug_spec(name);
    if !taken(existing, base) {
        r == base
    } else {
        exists|n: nat|
            n >= 2 && r == suffixed(base, n) && !taken(existing, suffixed(base, n)) && forall|k: nat|
                2 <= k < n ==> #[trigger] taken(existing, suffixed(base, k))
    }
}

/// Whether `id` is reserved or already on the list.
fn is_taken<P>(id: &String, existing: &Vec<City<P>>) -> (r: bool)
    ensures
        r == taken(existing@, id@),
{
    if str_eq(id.as_str(), "cities") || str_eq(id.as_str(), "settings") {
        return true;
    }
    match position_of(existing, id.as_str()) {
        Some(_) => true,
        None => false,
    }
}

proof fn lemma_decimal_value(n: nat)
    ensures
        digits_value(decimal(n)) == n,
        decimal(n).len() >= 1,
    decreases n,
{
    if n >= 10 {
        lemma_decimal_value(n / 10);
        let d = decimal(n);
        assert(d.drop_last() =~= decimal(n / 10));
        assert(digit_value(digit_char((n % 10) as int)) == n % 10);
        assert(d.last() == digit_char((n % 10) as int));
        assert(n == (n / 10) * 10 + n % 10);
        assert(digits_value(d) == digits_value(d.drop_last()) * 10 + digit_value(d.last()));
    } else {
        let d = decimal(n);
        assert(d.drop_last() =~= Seq::<char>::empty());
        assert(digits_value(Seq::<char>::empty()) == 0);
        assert(digit_value(digit_char(n as int)) == n);
        assert(digits_value(d) == digits_value(d.drop_last()) * 10 + digit_value(d.last()));
    }
}

proof fn lemma_suffixed_injective(base: Seq<char>, a: nat, b: nat)
    requires
        suffixed(base, a) == suffixed(base, b),
    ensures
        a == b,
{
    let k = base.len() + 1int;
    assert(suffixed(base, a).skip(k) =~= decimal(a));
    assert(suffixed(base, b).skip(k) =~= decimal(b));
    lemma_decimal_value(a);
    lemma_decimal_value(b);
}

proof fn lemma_suffixed_not_reserved(base: Seq<char>, n: nat)
    ensures
        !reserved(suffixed(base, n)),
{
    reveal_strlit("cities");
    reveal_strlit("settings");
    let s = suffixed(base, n);
    let k = base.len() as int;
    assert(s[k] == '-');
    if s == "cities"@ || s == "settings"@ {
        assert(s.len() <= 8);
        assert(forall|i: int| 0 <= i < s.len() ==> s[i] != '-');
    }
}

/// Pigeonhole: if the suffixes 2 up to `n - 1` are all on the list, the list has at least
/// `n - 2` cities.
proof fn lemma_taken_suffixes_fit<P>(existing: Seq<City<P>>, base: Seq<char>, n: int)
    requires
        n >= 2,
        forall|k: nat| 2 <= k < n ==> #[trigger] taken(existing, suffixed(base, k)),
    ensures
        n - 2 <= existing.len(),
{
    let dom = set_int_range(2, n);
    lemma_int_range(2, n);
    let f = |k: int|
        choose|j: int| 0 <= j < existing.len() && existing[j].id@ == suffixed(base, k as nat);
    assert forall|k: int| dom.contains(k) implies 0 <= #[trigger] f(k) < existing.len()
        && existing[f(k)].id@ == suffixed(base, k as nat) by {
        assert(taken(existing, suffixed(base, k as nat)));
        lemma_suffixed_not_reserved(base, k as nat);
    }
    assert(vstd::relations::injective_on(f, dom)) by {
        assert forall|x1: int, x2: int|
            dom.contains(x1) && dom.contains(x2) && #[trigger] f(x1) == #[trigger] f(x2) implies x1
            == x2 by {
            lemma_suffixed_injective(base, x1 as nat, x2 as nat);
        }
    }
    let img = dom.map(f);
    lemma_map_size(dom, img, f);
    let all = set_int_range(0, existing.len() as int);
    lemma_int_range(0, existing.len() as int);
    assert(img.subset_of(all));
    lemma_len_subset(img, all);
}

/// The slug of `name`, made unique against the list and the reserved page keys by a
/// numeric suffix.
pub fn unique_id<P>(name: &str, existing: &Vec<City<P>>) -> (r: String)
    requires
        existing@.len() + 2 <= u32::MAX,
    ensures
        unique_id_spec(name@, existing@, r@),
{
    let base = slug(name);
    if !is_taken(&base, existing) {
        return base;
    }
    let mut n: u32 = 2;
    loop
        invariant
            base@ == slug_spec(name@),
            taken(existing@, base@),
            existing@.len() + 2 <= u32::MAX,
            2 <= n <= existing@.len() + 2,
            forall|k: nat| 2 <= k < n ==> #[trigger] taken(existing@, suffixed(base@, k)),
        decreases existing@.len() + 2 - n,
    {
        let mut cand = base.clone();
        push_char(&mut cand, '-');
        write_decimal(n as u64, &mut cand);
        assert(cand@ == suffixed(base@, n as nat));
        if !is_taken(&cand, existing) {
            return cand;
        }
        proof {
            lemma_taken_suffixes_fit(existing@, base@, n + 1);
        }
        n = n + 1;
    }
}

/// The id `unique_id` picks is free: neither a page key nor on the list, so the list with a
/// city of that id added keeps distinct ids.
pub proof fn lemma_unique_id_is_free<P>(name: Seq<char>, existing: Seq<City<P>>, r: Seq<char>)
    requires
        unique_id_spec(name, existing, r),
    ensures
        !taken(existing, r),
{
}


/// Whether `c` is catalog city `i` as a fresh install lists it: the catalog id, no name, and
/// the catalog position.
pub open spec fn is_preset_city<P>(c: City<P>, i: int, catalog: Seq<P>) -> bool {
    &&& c.id@ == preset_ids()[i]
    &&& c.name@.len() == 0
    &&& c.position == catalog[i]
}

fn preset_city<P: Copy>(i: usize, catalog: &Vec<P>) -> (c: City<P>)
    requires
        i < PRESET_COUNT,
        catalog@.len() == PRESET_COUNT,
    ensures
        is_preset_city(c, i as int, catalog@),
{
    City { id: preset_id(i).to_owned(), name: String::new(), position: catalog[i] }
}

/// The list of a fresh install: the first catalog cities, whose positions `catalog` gives in
/// catalog order.
pub fn defaults<P: Copy>(catalog: &Vec<P>) -> (v: Vec<City<P>>)
    requires
        catalog@.len() == PRESET_COUNT,
    ensures
        v@.len() == DEFAULT_COUNT,
        forall|i: int| 0 <= i < DEFAULT_COUNT ==> #[trigger] is_preset_city(v@[i], i, catalog@),
{
    let mut v: Vec<City<P>> = Vec::new();
    let mut i: usize = 0;
    while i < DEFAULT_COUNT
        invariant
            i <= DEFAULT_COUNT,
            catalog@.len() == PRESET_COUNT,
            v@.len() == i,
            forall|k: int| 0 <= k < i ==> #[trigger] is_preset_city(v@[k], k, catalog@),
        decreases DEFAULT_COUNT - i,
    {
        v.push(preset_city(i, catalog));
        i = i + 1;
    }
    v
}

/// What the persistent store held for the city list.
pub enum Stored<P> {
    /// Nothing was saved yet.
    Missing,
    /// A saved list that could not be read back.
    Unreadable,
    /// The saved list.
    List(Vec<City<P>>),
}

/// The list the app starts from: a saved list wins, even an empty one (the user removed every
/// city); an unreadable or missing one gives the defaults.
pub fn seed<P: Copy>(stored: Stored<P>, catalog: &Vec<P>) -> (v: Vec<City<P>>)
    requires
        catalog@.len() == PRESET_COUNT,
    ensures
        match stored {
            Stored::List(l) => v@ == l@,
            _ => v@.len() == DEFAULT_COUNT && forall|i: int|
                0 <= i < DEFAULT_COUNT ==> #[trigger] is_preset_city(v@[i], i, catalog@),
        },
{
    match stored {
        Stored::List(l) => l,
        _ => defaults(catalog),
    }
}

/// The management page's one-line outcome readout.
pub enum Status {
    Idle,
    Saved,
    Removed,
    Exists,
    BadCoords,
    NeedName,
    Locating,
    Located,
    PermissionDenied,
    LocationFailed(String),
}

/// The catalog entry the picker index selects (indices past the end select the last one).
pub open spec fn picked(preset_ix: int) -> int {
    if preset_ix < 10 {
        preset_ix
    } else {
        9
    }
}

/// "Add from the catalog": the picked catalog city joins the list, unless a city with its id
/// is there already. `Ok` carries the id written.
pub fn add_preset<P: Copy>(list: &mut Vec<City<P>>, preset_ix: usize, catalog: &Vec<P>) -> (r:
    Result<String, Status>)
    requires
        catalog@.len() == PRESET_COUNT,
    ensures
        ({
            let i = picked(preset_ix as int);
            if has_id(old(list)@, preset_ids()[i]) {
                r matches Err(Status::Exists) && final(list)@ == old(list)@
            } else {
                &&& r matches Ok(id) && id@ == preset_ids()[i]
                &&& final(list)@.len() == old(list)@.len() + 1
                &&& final(list)@.drop_last() == old(list)@
                &&& is_preset_city(final(list)@.last(), i, catalog@)
            }
        }),
        ids_distinct(old(list)@) ==> ids_distinct(final(list)@),
{
    let i: usize = if preset_ix < PRESET_COUNT {
        preset_ix
    } else {
        PRESET_COUNT - 1
    };
    let id = preset_id(i);
    if position_of(list, id).is_some() {
        return Err(Status::Exists);
    }
    let city = preset_city(i, catalog);
    let ghost c = city;
    proof {
        lemma_first_with_id_found(list@, city.id@);
    }
    upsert(list, city);
    assert(list@.drop_last() =~= old(list)@);
    proof {
        if ids_distinct(old(list)@) {
            lemma_upsert_holds_city(old(list)@, c);
        }
    }
    Ok(id.to_owned())
}

/// "Save" in the city form: with both coordinates read, update the city being edited, or add
/// a new one named by the typed name (trimmed) under a fresh id. `position` is `None` where
/// the coordinates do not read as valid. `Ok` carries the id written.
pub fn save<P>(list: &mut Vec<City<P>>, editing: Option<String>, typed_name: &str, position: Option<
    P,
>) -> (r: Result<String, Status>)
    requires
        editing is None ==> old(list)@.len() + 2 <= u32::MAX,
    ensures
        match position {
            None => r matches Err(Status::BadCoords) && final(list)@ == old(list)@,
            Some(pos) => {
                let typed = trim_spec(typed_name@);
                match editing {
                    Some(id) => r matches Ok(w) && w@ == id@ && exists|c: City<P>|
                        c.id@ == id@ && c.name@ == typed && c.position == pos && final(list)@
                            == upserted(old(list)@, c),
                    None => if typed.len() == 0 {
                        r matches Err(Status::NeedName) && final(list)@ == old(list)@
                    } else {
                        r matches Ok(w) && unique_id_spec(typed, old(list)@, w@) && exists|
                            c: City<P>,
                        |
                            c.id@ == w@ && c.name@ == typed && c.position == pos && final(list)@
                                == upserted(old(list)@, c)
                    },
                }
            },
        },
        ids_distinct(old(list)@) ==> ids_distinct(final(list)@),
{
    let pos = match position {
        Some(p) => p,
        None => {
            return Err(Status::BadCoords);
        },
    };
    let typed = trim(typed_name);
    let id = match editing {
        Some(id) => id,
        None => {
            if typed.as_str().is_empty() {
                return Err(Status::NeedName);
            }
            proof {
                assert(typed@ == trim_spec(typed_name@));
            }
            let fresh = unique_id(typed.as_str(), list);
            fresh
        },
    };
    let written = id.clone();
    let city = City { id, name: typed, position: pos };
    let ghost c = city;
    upsert(list, city);
    assert(final(list)@ == upserted(old(list)@, c));
    proof {
        if ids_distinct(old(list)@) {
            lemma_upsert_holds_city(old(list)@, c);
        }
    }
    Ok(written)
}

/// How a location request ended.
pub enum LocationOutcome<P> {
    /// A fix at this position.
    Fix(P),
    /// The user or the platform denied the permission.
    PermissionDenied,
    /// Another failure, with its message.
    Failed(String),
}

/// Whether to ask for a location fix: not where the platform can prompt for the permission
/// and the prompt was refused.
pub fn may_locate(can_prompt: bool, granted: bool) -> (r: bool)
    ensures
        r == !(can_prompt && !granted),
{
    !(can_prompt && !granted)
}

/// "Use current location": a fix becomes (or replaces) the "my location" city.
pub fn locate_outcome<P>(list: &mut Vec<City<P>>, outcome: LocationOutcome<P>) -> (s: Status)
    ensures
        match outcome {
            LocationOutcome::Fix(pos) => s matches Status::Located && exists|c: City<P>|
                c.id@ == MY_LOCATION@ && c.name@.len() == 0 && c.position == pos && final(list)@
                    == upserted(old(list)@, c),
            LocationOutcome::PermissionDenied => s matches Status::PermissionDenied && final(list)@
                == old(list)@,
            LocationOutcome::Failed(e) => s matches Status::LocationFailed(m) && m@ == e@
                && final(list)@ == old(list)@,
        },
        ids_distinct(old(list)@) ==> ids_distinct(final(list)@),
{
    match outcome {
        LocationOutcome::Fix(pos) => {
            let city = City { id: MY_LOCATION.to_owned(), name: String::new(), position: pos };
            let ghost c = city;
            upsert(list, city);
            assert(final(list)@ == upserted(old(list)@, c));
            proof {
                if ids_distinct(old(list)@) {
                    lemma_upsert_holds_city(old(list)@, c);
                }
            }
            Status::Located
        },
        LocationOutcome::PermissionDenied => Status::PermissionDenied,
        LocationOutcome::Failed(e) => Status::LocationFailed(e),
    }
}


proof fn lemma_slug_raw_fixes(s: Seq<char>)
    requires
        forall|i: int| 0 <= i < s.len() ==> is_slug_char(#[trigger] s[i]),
        s.len() > 0 ==> s[0] != '-',
        forall|i: int| 0 <= i < s.len() - 1 ==> !(#[trigger] s[i] == '-' && s[i + 1] == '-'),
    ensures
        slug_raw(s) == s,
    decreases s.len(),
{
    if s.len() > 0 {
        let d = s.drop_last();
        assert forall|i: int| 0 <= i < d.len() - 1 implies !(#[trigger] d[i] == '-' && d[i + 1]
            == '-') by {
            assert(d[i] == s[i] && d[i + 1] == s[i + 1]);
        }
        lemma_slug_raw_fixes(d);
        let c = s.last();
        assert(is_slug_char(s[s.len() - 1]));
        if c == '-' {
            assert(s.len() >= 2);
            assert(!(s[s.len() - 2] == '-' && s[s.len() - 1] == '-'));
        }
        assert(d.push(c) =~= s);
    }
}

/// Route keys are stable: the key of a key is the key itself.
pub proof fn lemma_slug_idempotent(name: Seq<char>)
    ensures
        slug_spec(slug_spec(name)) == slug_spec(name),
{
    let k = slug_spec(name);
    lemma_slug_shape(name);
    lemma_slug_raw_fixes(k);
    assert(strip_start_dash(k) == k);
    assert(strip_end_dash(k) == k);
}

proof fn lemma_decimal_digits(n: nat)
    ensures
        decimal(n).len() >= 1,
        forall|i: int| 0 <= i < decimal(n).len() ==> is_digit(#[trigger] decimal(n)[i]),
    decreases n,
{
    if n >= 10 {
        lemma_decimal_digits(n / 10);
        assert forall|i: int| 0 <= i < decimal(n).len() implies is_digit(#[trigger] decimal(n)[i]) by {
            if i < decimal(n).len() - 1 {
                assert(decimal(n)[i] == decimal(n / 10)[i]);
            }
        }
    }
}

/// Every id `unique_id` picks has the slug shape.
pub proof fn lemma_unique_id_shape<P>(name: Seq<char>, existing: Seq<City<P>>, r: Seq<char>)
    requires
        unique_id_spec(name, existing, r),
    ensures
        is_slug(r),
{
    let base = slug_spec(name);
    lemma_slug_shape(name);
    if taken(existing, base) {
        let n = choose|n: nat|
            n >= 2 && r == suffixed(base, n) && !taken(existing, suffixed(base, n)) && forall|k: nat|
                2 <= k < n ==> #[trigger] taken(existing, suffixed(base, k));
        lemma_decimal_digits(n);
        let d = decimal(n);
        let b = base.len() as int;
        assert(r.len() == b + 1 + d.len());
        assert forall|i: int| 0 <= i < r.len() implies is_slug_char(#[trigger] r[i]) by {
            if i < b {
                assert(r[i] == base[i]);
            } else if i > b {
                assert(r[i] == d[i - b - 1]);
            }
        }
        assert(r[0] == base[0]);
        assert(r.last() == d[d.len() - 1]);
        assert forall|i: int| 0 <= i < r.len() - 1 implies !(#[trigger] r[i] == '-' && r[i + 1]
            == '-') by {
            if i < b - 1 {
                assert(r[i] == base[i] && r[i + 1] == base[i + 1]);
            } else if i == b - 1 {
                assert(r[i] == base[b - 1]);
            } else if i == b {
                assert(r[i + 1] == d[0]);
            } else {
                assert(r[i] == d[i - b - 1]);
            }
        }
    }
}


/// What a list holds, seen as text: the id, name and position of each city in order.
pub open spec fn list_view<P>(v: Seq<City<P>>) -> Seq<(Seq<char>, Seq<char>, P)> {
    v.map_values(|c: City<P>| (c.id@, c.name@, c.position))
}

/// Saving a city loaded into the form for editing, with its fields untouched, leaves the list
/// as it was: the edited city is the first with its id, its name is already trimmed, and the
/// saved city carries the same id, (trimmed) name and position.
pub proof fn lemma_save_unchanged_edit<P>(v: Seq<City<P>>, k: int, c: City<P>)
    requires
        0 <= k < v.len(),
        forall|j: int| 0 <= j < k ==> v[j].id@ != v[k].id@,
        trim_spec(v[k].name@) == v[k].name@,
        c.id@ == v[k].id@,
        c.name@ == trim_spec(v[k].name@),
        c.position == v[k].position,
    ensures
        list_view(upserted(v, c)) == list_view(v),
{
    lemma_first_with_id(v, c.id@, k);
    assert(list_view(v.update(k, c)) =~= list_view(v));
}


/// `s` with ASCII capitals folded to small letters.
pub open spec fn lowered(s: Seq<char>) -> Seq<char> {
    s.map_values(|c: char| ascii_lower(c))
}

/// The ASCII letters and digits of `s`, folded to small letters, in order.
pub open spec fn kept(s: Seq<char>) -> Seq<char>
    decreases s.len(),
{
    if s.len() == 0 {
        Seq::<char>::empty()
    } else if is_ascii_alnum(ascii_lower(s.last())) {
        kept(s.drop_last()).push(ascii_lower(s.last()))
    } else {
        kept(s.drop_last())
    }
}

/// `s` without its `-` characters.
pub open spec fn undashed(s: Seq<char>) -> Seq<char>
    decreases s.len(),
{
    if s.len() == 0 {
        Seq::<char>::empty()
    } else if s.last() == '-' {
        undashed(s.drop_last())
    } else {
        undashed(s.drop_last()).push(s.last())
    }
}

proof fn lemma_lower_idempotent(c: char)
    ensures
        ascii_lower(ascii_lower(c)) == ascii_lower(c),
{
}

proof fn lemma_slug_raw_ignores_case(s: Seq<char>)
    ensures
        slug_raw(s) == slug_raw(lowered(s)),
    decreases s.len(),
{
    if s.len() > 0 {
        lemma_slug_raw_ignores_case(s.drop_last());
        assert(lowered(s).drop_last() =~= lowered(s.drop_last()));
        assert(lowered(s).last() == ascii_lower(s.last()));
        lemma_lower_idempotent(s.last());
    }
}

/// The route key depends only on the name folded to small ASCII letters.
pub proof fn lemma_slug_ignores_case(name: Seq<char>)
    ensures
        slug_spec(name) == slug_spec(lowered(name)),
{
    lemma_slug_raw_ignores_case(name);
}

proof fn lemma_slug_raw_of_alnum(s: Seq<char>)
    requires
        forall|i: int| 0 <= i < s.len() ==> is_ascii_alnum(#[trigger] s[i]),
    ensures
        slug_raw(s) == lowered(s),
    decreases s.len(),
{
    if s.len() > 0 {
        lemma_slug_raw_of_alnum(s.drop_last());
        assert(is_ascii_alnum(s[s.len() - 1]));
        assert(lowered(s) =~= lowered(s.drop_last()).push(ascii_lower(s.last())));
    } else {
        assert(lowered(s) =~= Seq::<char>::empty());
    }
}

/// A name made only of ASCII letters and digits keys as itself, folded to small letters.
pub proof fn lemma_slug_of_alnum(name: Seq<char>)
    ensures
        name.len() > 0 && (forall|i: int| 0 <= i < name.len() ==> is_ascii_alnum(#[trigger] name[i]))
            ==> slug_spec(name) == lowered(name),
{
    if name.len() > 0 && (forall|i: int| 0 <= i < name.len() ==> is_ascii_alnum(#[trigger] name[i])) {
        lemma_slug_raw_of_alnum(name);
        let l = lowered(name);
        assert(is_ascii_alnum(name[0]));
        assert(is_ascii_alnum(name[name.len() - 1]));
        assert(l[0] != '-');
        assert(l.last() != '-');
    }
}

proof fn lemma_undashed_raw(s: Seq<char>)
    ensures
        undashed(slug_raw(s)) == kept(s),
    decreases s.len(),
{
    if s.len() > 0 {
        lemma_undashed_raw(s.drop_last());
        let out = slug_raw(s.drop_last());
        let ch = ascii_lower(s.last());
        if is_ascii_alnum(ch) {
            assert(out.push(ch).drop_last() =~= out);
        } else if out.len() > 0 && out.last() != '-' {
            assert(out.push('-').drop_last() =~= out);
        }
    }
}

proof fn lemma_undashed_strip_start(s: Seq<char>)
    ensures
        undashed(strip_start_dash(s)) == undashed(s),
    decreases s.len(),
{
    if s.len() > 0 && s[0] == '-' {
        lemma_undashed_strip_start(s.drop_first());
        lemma_undashed_drop_first_dash(s);
    }
}

proof fn lemma_undashed_drop_first_dash(s: Seq<char>)
    requires
        s.len() > 0,
        s[0] == '-',
    ensures
        undashed(s.drop_first()) == undashed(s),
    decreases s.len(),
{
    if s.len() > 1 {
        let t = s.drop_last();
        lemma_undashed_drop_first_dash(t);
        assert(s.drop_first().drop_last() =~= t.drop_first());
        assert(s.drop_first().last() == s.last());
    } else {
        assert(s.drop_first() =~= Seq::<char>::empty());
        assert(s.drop_last() =~= Seq::<char>::empty());
    }
}

proof fn lemma_undashed_strip_end(s: Seq<char>)
    ensures
        undashed(strip_end_dash(s)) == undashed(s),
    decreases s.len(),
{
    if s.len() > 0 && s.last() == '-' {
        lemma_undashed_strip_end(s.drop_last());
    }
}

/// The letters and digits of the route key are exactly the ASCII letters and digits of the
/// name, folded to small letters and in order; a name with none keys as `city`.
pub proof fn lemma_slug_keeps_alnum(name: Seq<char>)
    ensures
        kept(name).len() > 0 ==> undashed(slug_spec(name)) == kept(name),
        kept(name).len() == 0 ==> slug_spec(name) == "city"@,
{
    let raw = slug_raw(name);
    lemma_undashed_raw(name);
    lemma_undashed_strip_start(raw);
    lemma_undashed_strip_end(strip_start_dash(raw));
    let t = strip_end_dash(strip_start_dash(raw));
    assert(undashed(t) == kept(name));
    if t.len() == 0 {
        assert(undashed(t) =~= Seq::<char>::empty());
    }
    if kept(name).len() == 0 && t.len() > 0 {
        lemma_slug_shape(name);
        assert(t[0] != '-');
        lemma_undashed_nonempty(t);
    }
}

proof fn lemma_undashed_nonempty(s: Seq<char>)
    requires
        s.len() > 0,
        s[0] != '-',
    ensures
        undashed(s).len() > 0,
    decreases s.len(),
{
    if s.len() > 1 {
        lemma_undashed_nonempty(s.drop_last());
    }
}

} // verus!
