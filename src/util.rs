use vstd::prelude::*;

verus! {

broadcast use vstd::seq_lib::group_seq_properties;

/// The pieces of `s` between occurrences of `sep`, as `str::split` yields
/// them: an empty text gives one empty piece.
pub open spec fn split_on(s: Seq<char>, sep: char) -> Seq<Seq<char>>
    decreases s.len(),
{
    if s.len() == 0 {
        seq![Seq::empty()]
    } else {
        let r = split_on(s.drop_last(), sep);
        if s.last() == sep {
            r.push(Seq::empty())
        } else {
            r.update(r.len() - 1, r.last().push(s.last()))
        }
    }
}

/// Index of the first `c` in `s`, or -1.
pub open spec fn first_index(s: Seq<char>, c: char) -> int
    decreases s.len(),
{
    if s.len() == 0 {
        -1
    } else if s[0] == c {
        0
    } else {
        let r = first_index(s.skip(1), c);
        if r < 0 {
            -1
        } else {
            r + 1
        }
    }
}

/// A `name=value` piece split at its first `=`.
pub open spec fn pair_of(piece: Seq<char>) -> (Seq<char>, Seq<char>) {
    let k = first_index(piece, '=');
    (piece.take(k), piece.skip(k + 1))
}

/// The map that a sequence of pairs builds when a later pair of a name
/// replaces an earlier one.
pub open spec fn to_map(pairs: Seq<(Seq<char>, Seq<char>)>) -> Map<Seq<char>, Seq<char>>
    decreases pairs.len(),
{
    if pairs.len() == 0 {
        Map::empty()
    } else {
        to_map(pairs.drop_last()).insert(pairs.last().0, pairs.last().1)
    }
}

/// A query string in which every `&`-separated piece holds a `=`.
pub open spec fn well_formed_query(s: Seq<char>) -> bool {
    forall|i: int| 0 <= i < split_on(s, '&').len() ==> (#[trigger] split_on(s, '&')[i]).contains('=')
}

/// The parameters of a query string: each `&`-separated piece is split at
/// its first `=` into name and value, and a later name replaces an earlier.
pub open spec fn query_map(s: Seq<char>) -> Map<Seq<char>, Seq<char>> {
    to_map(split_on(s, '&').map_values(|p: Seq<char>| pair_of(p)))
}

pub open spec fn entry_views(e: Seq<(String, String)>) -> Seq<(Seq<char>, Seq<char>)> {
    e.map_values(|x: (String, String)| (x.0@, x.1@))
}

pub open spec fn names_unique(ev: Seq<(Seq<char>, Seq<char>)>) -> bool {
    forall|i: int, j: int|
        0 <= i < ev.len() && 0 <= j < ev.len() && i != j ==> (#[trigger] ev[i]).0 != (
        #[trigger] ev[j]).0
}

proof fn lemma_split_nonempty(s: Seq<char>, sep: char)
    ensures
        split_on(s, sep).len() >= 1,
    decreases s.len(),
{
    if s.len() > 0 {
        lemma_split_nonempty(s.drop_last(), sep);
    }
}

proof fn lemma_first_index(s: Seq<char>, c: char, k: int)
    requires
        0 <= k < s.len(),
        s[k] == c,
        forall|j: int| 0 <= j < k ==> s[j] != c,
    ensures
        first_index(s, c) == k,
    decreases k,
{
    if k > 0 {
        lemma_first_index(s.skip(1), c, k - 1);
    }
}

proof fn lemma_to_map_domain(ev: Seq<(Seq<char>, Seq<char>)>)
    ensures
        to_map(ev).dom().finite(),
        forall|k: Seq<char>|
            #[trigger] to_map(ev).contains_key(k) <==> exists|i: int| 0 <= i < ev.len() && ev[i].0 == k,
        names_unique(ev) ==> to_map(ev).dom().len() == ev.len(),
        names_unique(ev) ==> forall|i: int| 0 <= i < ev.len() ==> to_map(ev)[(#[trigger] ev[i]).0] == ev[i].1,
    decreases ev.len(),
{
    if ev.len() > 0 {
        let d = ev.drop_last();
        lemma_to_map_domain(d);
        assert forall|k: Seq<char>| #[trigger] to_map(ev).contains_key(k) <==> exists|i: int|
            0 <= i < ev.len() && ev[i].0 == k by {
            if to_map(d).contains_key(k) {
                let i = choose|i: int| 0 <= i < d.len() && d[i].0 == k;
                assert(ev[i] == d[i]);
            }
            if exists|i: int| 0 <= i < ev.len() && ev[i].0 == k {
                let i = choose|i: int| 0 <= i < ev.len() && ev[i].0 == k;
                if i < d.len() {
                    assert(d[i] == ev[i]);
                }
            }
        }
        if names_unique(ev) {
            assert(names_unique(d)) by {
                assert forall|i: int, j: int| 0 <= i < d.len() && 0 <= j < d.len() && i != j
                    implies (#[trigger] d[i]).0 != (#[trigger] d[j]).0 by {
                    assert(d[i] == ev[i] && d[j] == ev[j]);
                }
            }
            assert(!to_map(d).contains_key(ev.last().0)) by {
                if to_map(d).contains_key(ev.last().0) {
                    let i = choose|i: int| 0 <= i < d.len() && d[i].0 == ev.last().0;
                    assert(ev[i] == d[i]);
                }
            }
            assert forall|i: int| 0 <= i < ev.len() implies to_map(ev)[(#[trigger] ev[i]).0]
                == ev[i].1 by {
                if i < d.len() {
                    assert(d[i] == ev[i]);
                    assert(to_map(d)[d[i].0] == d[i].1);
                }
            }
        }
    }
}

proof fn lemma_to_map_update(ev: Seq<(Seq<char>, Seq<char>)>, idx: int, p: (Seq<char>, Seq<char>))
    requires
        names_unique(ev),
        0 <= idx < ev.len(),
        ev[idx].0 == p.0,
    ensures
        to_map(ev.update(idx, p)) == to_map(ev).insert(p.0, p.1),
    decreases ev.len(),
{
    let u = ev.update(idx, p);
    let d = ev.drop_last();
    if idx == ev.len() - 1 {
        assert(u.drop_last() =~= d);
        assert(to_map(ev).insert(p.0, p.1) =~= to_map(d).insert(p.0, p.1));
    } else {
        assert(names_unique(d)) by {
            assert forall|i: int, j: int| 0 <= i < d.len() && 0 <= j < d.len() && i != j
                implies (#[trigger] d[i]).0 != (#[trigger] d[j]).0 by {
                assert(d[i] == ev[i] && d[j] == ev[j]);
            }
        }
        lemma_to_map_update(d, idx, p);
        assert(u.drop_last() =~= d.update(idx, p));
        assert(ev.last().0 != p.0);
        assert(to_map(u) =~= to_map(ev).insert(p.0, p.1));
    }
}

/// Parameters of a query string, by name.
pub struct QueryParams {
    entries: Vec<(String, String)>,
}

impl View for QueryParams {
    type V = Map<Seq<char>, Seq<char>>;

    closed spec fn view(&self) -> Map<Seq<char>, Seq<char>> {
        to_map(entry_views(self.entries@))
    }
}

impl QueryParams {
    pub closed spec fn wf(&self) -> bool {
        names_unique(entry_views(self.entries@))
    }

    /// Sets `name` to `value`, replacing an earlier value.
    fn insert(&mut self, name: String, value: String)
        requires
            old(self).wf(),
        ensures
            final(self).wf(),
            final(self)@ == old(self)@.insert(name@, value@),
    {
        let ghost ev = entry_views(self.entries@);
        let mut i: usize = 0;
        while i < self.entries.len()
            invariant
                0 <= i <= self.entries.len(),
                ev == entry_views(self.entries@),
                self.entries@ == old(self).entries@,
                names_unique(ev),
                forall|j: int| 0 <= j < i ==> (#[trigger] ev[j]).0 != name@,
            decreases self.entries.len() - i,
        {
            if self.entries[i].0 == name {
                proof { lemma_to_map_update(ev, i as int, (name@, value@)); }
                self.entries.set(i, (name, value));
                assert(entry_views(self.entries@) =~= ev.update(i as int, (name@, value@)));
                assert forall|a: int, b: int|
                    0 <= a < ev.len() && 0 <= b < ev.len() && a != b implies (
                    #[trigger] entry_views(self.entries@)[a]).0 != (
                    #[trigger] entry_views(self.entries@)[b]).0 by {
                    assert(ev[a].0 != ev[b].0);
                }
                return;
            }
            i += 1;
        }
        self.entries.push((name, value));
        assert(entry_views(self.entries@) =~= ev.push((name@, value@)));
        assert(entry_views(self.entries@).drop_last() =~= ev);
    }

    /// Number of distinct names.
    pub fn len(&self) -> (n: usize)
        requires
            self.wf(),
        ensures
            n == self@.dom().len(),
    {
        proof { lemma_to_map_domain(entry_views(self.entries@)); }
        self.entries.len()
    }

    /// The value of `name`, if it was given.
    pub fn get(&self, name: &str) -> (r: Option<&String>)
        requires
            self.wf(),
        ensures
            match r {
                Some(v) => self@.contains_key(name@) && v@ == self@[name@],
                None => !self@.contains_key(name@),
            },
    {
        let ghost ev = entry_views(self.entries@);
        proof { lemma_to_map_domain(ev); }
        let wanted = name.to_owned();
        let mut i: usize = 0;
        while i < self.entries.len()
            invariant
                0 <= i <= self.entries.len(),
                ev == entry_views(self.entries@),
                names_unique(ev),
                forall|j: int| 0 <= j < ev.len() ==> to_map(ev)[(#[trigger] ev[j]).0] == ev[j].1,
                forall|k: Seq<char>|
                    #[trigger] to_map(ev).contains_key(k) <==> exists|j: int|
                        0 <= j < ev.len() && ev[j].0 == k,
                wanted@ == name@,
                forall|j: int| 0 <= j < i ==> (#[trigger] ev[j]).0 != name@,
            decreases self.entries.len() - i,
        {
            if self.entries[i].0 == wanted {
                assert(ev[i as int] == (self.entries@[i as int].0@, self.entries@[i as int].1@));
                assert(ev[i as int].0 == name@);
                return Some(&self.entries[i].1);
            }
            i += 1;
        }
        None
    }
}

/// The pieces of `s` that `bounds` marks.
pub open spec fn pieces_of(s: Seq<char>, bounds: Seq<(usize, usize)>) -> Seq<Seq<char>> {
    bounds.map_values(|b: (usize, usize)| s.subrange(b.0 as int, b.1 as int))
}

/// Bounds of the `&`-separated pieces of `text`.
fn split_bounds(text: &str) -> (bounds: Vec<(usize, usize)>)
    ensures
        pieces_of(text@, bounds@) == split_on(text@, '&'),
        forall|j: int|
            0 <= j < bounds.len() ==> (#[trigger] bounds@[j]).0 <= bounds@[j].1 <= text@.len(),
{
    let ghost s = text@;
    let n = text.unicode_len();
    let mut bounds: Vec<(usize, usize)> = Vec::new();
    let mut start: usize = 0;
    let mut i: usize = 0;
    while i < n
        invariant
            n == s.len(),
            s == text@,
            0 <= start <= i <= n,
            forall|j: int|
                0 <= j < bounds.len() ==> (#[trigger] bounds@[j]).0 <= bounds@[j].1 <= start,
            split_on(s.take(i as int), '&') == pieces_of(s, bounds@).push(
                s.subrange(start as int, i as int),
            ),
        decreases n - i,
    {
        let c = text.get_char(i);
        let ghost prev = pieces_of(s, bounds@);
        assert(s.take(i + 1).drop_last() =~= s.take(i as int));
        assert(s.take(i + 1).last() == c);
        if c == '&' {
            bounds.push((start, i));
            assert(pieces_of(s, bounds@) =~= prev.push(s.subrange(start as int, i as int)));
            start = i + 1;
            assert(s.subrange(start as int, i + 1) =~= Seq::<char>::empty());
        } else {
            assert(s.subrange(start as int, i + 1) =~= s.subrange(start as int, i as int).push(c));
        }
        i += 1;
        assert(split_on(s.take(i as int), '&') =~= pieces_of(s, bounds@).push(
            s.subrange(start as int, i as int),
        ));
    }
    let ghost prev = pieces_of(s, bounds@);
    bounds.push((start, n));
    assert(pieces_of(s, bounds@) =~= prev.push(s.subrange(start as int, n as int)));
    assert(s.take(n as int) =~= s);
    bounds
}

/// Whether every `&`-separated piece of `query_string` holds a `=`, as
/// `parse_query_str` requires.
pub fn is_well_formed_query(query_string: &str) -> (r: bool)
    ensures
        r == well_formed_query(query_string@),
{
    let ghost s = query_string@;
    let bounds = split_bounds(query_string);
    let ghost pieces = pieces_of(s, bounds@);
    let mut k: usize = 0;
    while k < bounds.len()
        invariant
            s == query_string@,
            pieces == pieces_of(s, bounds@),
            pieces == split_on(s, '&'),
            forall|j: int|
                0 <= j < bounds.len() ==> (#[trigger] bounds@[j]).0 <= bounds@[j].1 <= s.len(),
            0 <= k <= bounds.len(),
            forall|j: int| 0 <= j < k ==> (#[trigger] pieces[j]).contains('='),
        decreases bounds.len() - k,
    {
        let (a, b) = bounds[k];
        let ghost piece = pieces[k as int];
        assert(piece == s.subrange(a as int, b as int));
        let mut e: usize = a;
        while e < b && query_string.get_char(e) != '='
            invariant
                a <= e <= b <= s.len(),
                s == query_string@,
                piece == s.subrange(a as int, b as int),
                forall|j: int| a <= j < e ==> s[j] != '=',
            decreases b - e,
        {
            e += 1;
        }
        if e == b {
            assert forall|j: int| 0 <= j < piece.len() implies piece[j] != '=' by {
                assert(piece[j] == s[a + j]);
            }
            return false;
        }
        assert(piece[e - a] == '=');
        k += 1;
    }
    true
}

/// Splits a query string such as `table_no=5&item_no=6` into its
/// parameters.
pub fn parse_query_str(query_string: &str) -> (r: QueryParams)
    requires
        well_formed_query(query_string@),
    ensures
        r.wf(),
        r@ == query_map(query_string@),
{
    let ghost s = query_string@;
    let n = query_string.unicode_len();
    let bounds = split_bounds(query_string);
    let ghost pieces = pieces_of(s, bounds@);
    let ghost pairs = pieces.map_values(|p: Seq<char>| pair_of(p));
    assert(pairs == split_on(s, '&').map_values(|p: Seq<char>| pair_of(p)));

    let mut r = QueryParams { entries: Vec::new() };
    assert(r@ =~= to_map(pairs.take(0)));
    let mut k: usize = 0;
    while k < bounds.len()
        invariant
            n == s.len(),
            s == query_string@,
            pieces == pieces_of(s, bounds@),
            pieces == split_on(s, '&'),
            pairs == pieces.map_values(|p: Seq<char>| pair_of(p)),
            forall|j: int| 0 <= j < bounds.len() ==> (#[trigger] bounds@[j]).0 <= bounds@[j].1 <= n,
            well_formed_query(s),
            0 <= k <= bounds.len(),
            r.wf(),
            r@ == to_map(pairs.take(k as int)),
        decreases bounds.len() - k,
    {
        let (a, b) = bounds[k];
        let ghost piece = pieces[k as int];
        assert(piece == s.subrange(a as int, b as int));
        assert(piece.contains('='));
        // the first '=' of the piece
        let mut e: usize = a;
        while e < b && query_string.get_char(e) != '='
            invariant
                a <= e <= b <= n,
                n == s.len(),
                s == query_string@,
                piece == s.subrange(a as int, b as int),
                forall|j: int| a <= j < e ==> s[j] != '=',
            decreases b - e,
        {
            e += 1;
        }
        if e == b {
            assert forall|j: int| 0 <= j < piece.len() implies piece[j] != '=' by {
                assert(piece[j] == s[a + j]);
            }
        }
        proof { lemma_first_index(piece, '=', (e - a) as int); }
        let name = query_string.substring_char(a, e).to_owned();
        let value = query_string.substring_char(e + 1, b).to_owned();
        assert(name@ =~= pair_of(piece).0);
        assert(value@ =~= pair_of(piece).1);
        r.insert(name, value);
        assert(pairs.take(k + 1).drop_last() =~= pairs.take(k as int));
        k += 1;
    }
    assert(pairs.take(bounds.len() as int) =~= pairs);
    r
}

} // verus!
