//! The settings store: an in-memory mapping from application identifiers
//! ("desktops") to opaque settings blobs, together with the line-oriented
//! text format in which it is persisted.

use vstd::prelude::*;

verus! {

/// Failure while reading persisted settings text.
#[derive(Clone, Copy, Debug, PartialEq, Eq, Structural)]
pub enum LoadError {
    /// The text has an odd number of lines: some key has no value line.
    ParseError,
}

/// The in-memory settings map. Keys are unique; values are opaque strings.
#[derive(Debug)]
pub struct SettingSaver {
    entries: Vec<(String, String)>,
}

/// The value `k` maps to in `m`, or the empty string when `k` is absent.
pub open spec fn spec_lookup(m: Map<Seq<char>, Seq<char>>, k: Seq<char>) -> Seq<char> {
    if m.dom().contains(k) {
        m[k]
    } else {
        Seq::empty()
    }
}

/// No two entries share a key.
pub open spec fn unique_keys(es: Seq<(Seq<char>, Seq<char>)>) -> bool {
    forall|i: int, j: int| 0 <= i < j < es.len() ==> es[i].0 != es[j].0
}

/// The map denoted by a sequence of key/value entries; a later entry
/// overwrites an earlier one with the same key.
pub open spec fn spec_store_map(es: Seq<(Seq<char>, Seq<char>)>) -> Map<Seq<char>, Seq<char>>
    decreases es.len(),
{
    if es.len() == 0 {
        Map::empty()
    } else {
        spec_store_map(es.drop_last()).insert(es.last().0, es.last().1)
    }
}

/// The entry sequence after setting `k` to `v`: the entry is overwritten in
/// place when the key is already present, and appended otherwise.
pub open spec fn spec_set(
    es: Seq<(Seq<char>, Seq<char>)>,
    k: Seq<char>,
    v: Seq<char>,
) -> Seq<(Seq<char>, Seq<char>)> {
    if exists|i: int| 0 <= i < es.len() && es[i].0 == k {
        es.update(choose|i: int| 0 <= i < es.len() && es[i].0 == k, (k, v))
    } else {
        es.push((k, v))
    }
}

/// The persisted text of an entry sequence: for each entry its key line,
/// then its value line, each terminated by a newline character.
pub open spec fn spec_serialize(es: Seq<(Seq<char>, Seq<char>)>) -> Seq<char>
    decreases es.len(),
{
    if es.len() == 0 {
        Seq::empty()
    } else {
        es[0].0 + seq!['\n'] + es[0].1 + seq!['\n'] + spec_serialize(es.drop_first())
    }
}

/// Serialization distributes over concatenation of entry sequences.
pub proof fn lemma_serialize_concat(a: Seq<(Seq<char>, Seq<char>)>, b: Seq<(Seq<char>, Seq<char>)>)
    ensures
        spec_serialize(a + b) == spec_serialize(a) + spec_serialize(b),
    decreases a.len(),
{
    if a.len() == 0 {
        assert(a + b =~= b);
        assert(spec_serialize(a) + spec_serialize(b) =~= spec_serialize(b));
    } else {
        assert((a + b).drop_first() =~= a.drop_first() + b);
        lemma_serialize_concat(a.drop_first(), b);
        assert((a + b)[0] == a[0]);
        assert(spec_serialize(a + b) =~= spec_serialize(a) + spec_serialize(b));
    }
}

/// Holds when no character of `s` is a newline.
pub open spec fn newline_free(s: Seq<char>) -> bool {
    forall|i: int| 0 <= i < s.len() ==> s[i] != '\n'
}

/// The views of a sequence of strings.
pub open spec fn views_of(lines: Seq<String>) -> Seq<Seq<char>> {
    lines.map_values(|l: String| l@)
}

/// The lines of a text, split at newline characters. A trailing newline
/// terminates the last line rather than opening an empty one, and a final
/// segment without a terminator still counts as a line.
pub open spec fn spec_lines(s: Seq<char>) -> Seq<Seq<char>>
    decreases s.len(),
{
    if s.len() == 0 {
        Seq::empty()
    } else if s[0] == '\n' {
        seq![Seq::<char>::empty()] + spec_lines(s.drop_first())
    } else {
        let rest = spec_lines(s.drop_first());
        if rest.len() == 0 {
            seq![seq![s[0]]]
        } else {
            seq![seq![s[0]] + rest[0]] + rest.drop_first()
        }
    }
}

/// Adjacent lines paired up as key/value entries.
pub open spec fn spec_pairs(lines: Seq<Seq<char>>) -> Seq<(Seq<char>, Seq<char>)>
    decreases lines.len(),
{
    if lines.len() < 2 {
        Seq::empty()
    } else {
        seq![(lines[0], lines[1])] + spec_pairs(lines.skip(2))
    }
}

/// A text without newlines is a single line, or no line at all when empty.
pub proof fn lemma_lines_no_newline(s: Seq<char>)
    requires
        newline_free(s),
    ensures
        spec_lines(s) == if s.len() == 0 {
            Seq::<Seq<char>>::empty()
        } else {
            seq![s]
        },
    decreases s.len(),
{
    if s.len() > 0 {
        assert(s[0] != '\n');
        assert(newline_free(s.drop_first()));
        lemma_lines_no_newline(s.drop_first());
        if s.len() == 1 {
            assert(s.drop_first() =~= Seq::<char>::empty());
            assert(seq![s[0]] =~= s);
        } else {
            assert(spec_lines(s.drop_first()) == seq![s.drop_first()]);
            assert(seq![s[0]] + s.drop_first() =~= s);
            assert(seq![s.drop_first()].drop_first() =~= Seq::<Seq<char>>::empty());
            assert(spec_lines(s) =~= seq![s]);
        }
    }
}

/// Splitting a newline-free line, its terminator, and a remainder yields
/// that line followed by the lines of the remainder.
pub proof fn lemma_lines_concat(line: Seq<char>, rest: Seq<char>)
    requires
        newline_free(line),
    ensures
        spec_lines(line + seq!['\n'] + rest) == seq![line] + spec_lines(rest),
    decreases line.len(),
{
    let s = line + seq!['\n'] + rest;
    if line.len() == 0 {
        assert(s[0] == '\n');
        assert(s.drop_first() =~= rest);
        assert(line =~= Seq::<char>::empty());
        assert(spec_lines(s) =~= seq![line] + spec_lines(rest));
    } else {
        assert(s[0] == line[0]);
        assert(s[0] != '\n');
        assert(s.drop_first() =~= line.drop_first() + seq!['\n'] + rest);
        assert(newline_free(line.drop_first()));
        lemma_lines_concat(line.drop_first(), rest);
        let r = spec_lines(s.drop_first());
        assert(r == seq![line.drop_first()] + spec_lines(rest));
        assert(r.len() > 0);
        assert(r[0] == line.drop_first());
        assert(seq![s[0]] + r[0] =~= line);
        assert(r.drop_first() =~= spec_lines(rest));
        assert(spec_lines(s) =~= seq![line] + spec_lines(rest));
    }
}

/// Pairing distributes over concatenation at an even boundary.
pub proof fn lemma_pairs_concat(a: Seq<Seq<char>>, b: Seq<Seq<char>>)
    requires
        a.len() % 2 == 0,
    ensures
        spec_pairs(a + b) == spec_pairs(a) + spec_pairs(b),
    decreases a.len(),
{
    if a.len() == 0 {
        assert(a + b =~= b);
        assert(spec_pairs(a) + spec_pairs(b) =~= spec_pairs(b));
    } else {
        assert(a.len() >= 2);
        assert((a + b).skip(2) =~= a.skip(2) + b);
        assert(a.skip(2).len() % 2 == 0);
        lemma_pairs_concat(a.skip(2), b);
        assert((a + b)[0] == a[0]);
        assert((a + b)[1] == a[1]);
        assert(spec_pairs(a + b) =~= spec_pairs(a) + spec_pairs(b));
    }
}

/// Holds when no key and no value of `es` contains a newline character.
pub open spec fn newline_free_entries(es: Seq<(Seq<char>, Seq<char>)>) -> bool {
    forall|i: int| 0 <= i < es.len() ==> newline_free(es[i].0) && newline_free(es[i].1)
}

/// The entries written out as a flat sequence of lines: key, value, key,
/// value, and so on.
spec fn spec_flatten_pairs(es: Seq<(Seq<char>, Seq<char>)>) -> Seq<Seq<char>>
    decreases es.len(),
{
    if es.len() == 0 {
        Seq::empty()
    } else {
        seq![es[0].0, es[0].1] + spec_flatten_pairs(es.drop_first())
    }
}

/// Splitting serialized entries into lines recovers the flat key/value
/// line sequence, provided no key or value contains a newline.
proof fn lemma_lines_of_serialize(es: Seq<(Seq<char>, Seq<char>)>)
    requires
        newline_free_entries(es),
    ensures
        spec_lines(spec_serialize(es)) == spec_flatten_pairs(es),
        spec_flatten_pairs(es).len() == 2 * es.len(),
    decreases es.len(),
{
    if es.len() == 0 {
        assert(spec_lines(spec_serialize(es)) =~= spec_flatten_pairs(es));
    } else {
        let k = es[0].0;
        let v = es[0].1;
        let rest = spec_serialize(es.drop_first());
        assert(newline_free_entries(es.drop_first()));
        lemma_lines_of_serialize(es.drop_first());
        assert(spec_serialize(es) =~= k + seq!['\n'] + (v + seq!['\n'] + rest));
        lemma_lines_concat(k, v + seq!['\n'] + rest);
        lemma_lines_concat(v, rest);
        assert(spec_lines(spec_serialize(es)) =~= seq![k] + (seq![v] + spec_lines(rest)));
        assert(seq![k] + (seq![v] + spec_flatten_pairs(es.drop_first())) =~= spec_flatten_pairs(
            es,
        ));
    }
}

/// Pairing the flat key/value line sequence gives back the entries.
proof fn lemma_pairs_of_flatten(es: Seq<(Seq<char>, Seq<char>)>)
    ensures
        spec_pairs(spec_flatten_pairs(es)) == es,
    decreases es.len(),
{
    if es.len() == 0 {
        assert(spec_pairs(spec_flatten_pairs(es)) =~= es);
    } else {
        let f = spec_flatten_pairs(es);
        lemma_pairs_of_flatten(es.drop_first());
        assert(f.skip(2) =~= spec_flatten_pairs(es.drop_first()));
        assert(f[0] == es[0].0);
        assert(f[1] == es[0].1);
        assert((f[0], f[1]) == es[0]);
        assert(spec_pairs(f) =~= seq![es[0]] + es.drop_first());
        assert(seq![es[0]] + es.drop_first() =~= es);
    }
}

/// Law: text written by a save, read back by a fresh load, denotes the
/// same mapping, for entries whose keys and values contain no newline
/// character. (A value with an embedded newline cannot survive the
/// line-oriented format.)
pub proof fn lemma_round_trip_entries(es: Seq<(Seq<char>, Seq<char>)>)
    requires
        newline_free_entries(es),
    ensures
        spec_lines(spec_serialize(es)).len() % 2 == 0,
        spec_store_map(spec_pairs(spec_lines(spec_serialize(es)))) == spec_store_map(es),
{
    lemma_lines_of_serialize(es);
    lemma_pairs_of_flatten(es);
}

/// Law: saving a store, loading the text, and saving again round-trips at
/// the store level: the loaded store carries the same map.
pub proof fn lemma_save_load_round_trip(s: &SettingSaver)
    requires
        newline_free_entries(s.entries_seq()),
    ensures
        spec_lines(spec_serialize(s.entries_seq())).len() % 2 == 0,
        spec_store_map(spec_pairs(spec_lines(spec_serialize(s.entries_seq())))) == s@,
{
    lemma_round_trip_entries(s.entries_seq());
}

/// Law: two saves with no intervening mutation produce identical text;
/// the saved text is a function of the entries alone.
pub proof fn lemma_save_idempotent(s: &SettingSaver, c1: Seq<char>, c2: Seq<char>)
    requires
        c1 == spec_serialize(s.entries_seq()),
        c2 == spec_serialize(s.entries_seq()),
    ensures
        c1 == c2,
{
}

/// A key is in the map exactly when some entry carries it.
pub proof fn lemma_store_map_contains(es: Seq<(Seq<char>, Seq<char>)>, k: Seq<char>)
    ensures
        spec_store_map(es).dom().contains(k) <==> (exists|i: int|
            0 <= i < es.len() && es[i].0 == k),
    decreases es.len(),
{
    if es.len() > 0 {
        lemma_store_map_contains(es.drop_last(), k);
        if spec_store_map(es).dom().contains(k) && es.last().0 != k {
            let i = choose|i: int| 0 <= i < es.drop_last().len() && es.drop_last()[i].0 == k;
            assert(es[i].0 == k);
        }
        if exists|i: int| 0 <= i < es.len() && es[i].0 == k {
            let i = choose|i: int| 0 <= i < es.len() && es[i].0 == k;
            if i < es.len() - 1 {
                assert(es.drop_last()[i].0 == k);
            }
        }
    }
}

/// With unique keys, the entry at index `i` gives the map's value at its key.
pub proof fn lemma_store_map_value(es: Seq<(Seq<char>, Seq<char>)>, i: int)
    requires
        unique_keys(es),
        0 <= i < es.len(),
    ensures
        spec_store_map(es).dom().contains(es[i].0),
        spec_store_map(es)[es[i].0] == es[i].1,
    decreases es.len(),
{
    if i < es.len() - 1 {
        assert(unique_keys(es.drop_last()));
        lemma_store_map_value(es.drop_last(), i);
        assert(es.drop_last()[i] == es[i]);
        assert(es.last().0 != es[i].0);
    }
}

/// Overwriting the entry that carries key `es[i].0` updates the map at that
/// key and nothing else.
proof fn lemma_store_map_update(es: Seq<(Seq<char>, Seq<char>)>, i: int, v: Seq<char>)
    requires
        unique_keys(es),
        0 <= i < es.len(),
    ensures
        spec_store_map(es.update(i, (es[i].0, v))) == spec_store_map(es).insert(es[i].0, v),
    decreases es.len(),
{
    let k = es[i].0;
    let es2 = es.update(i, (k, v));
    if i == es.len() - 1 {
        assert(es2.drop_last() =~= es.drop_last());
        assert(spec_store_map(es2) =~= spec_store_map(es).insert(k, v));
    } else {
        assert(unique_keys(es.drop_last()));
        assert(es.drop_last()[i] == es[i]);
        lemma_store_map_update(es.drop_last(), i, v);
        assert(es2.drop_last() =~= es.drop_last().update(i, (k, v)));
        assert(es.last().0 != k);
        assert(es2.last() == es.last());
        assert(spec_store_map(es2) =~= spec_store_map(es).insert(k, v));
    }
}

/// Setting a key updates the denoted map at that key alone, and preserves
/// key uniqueness and newline-freedom of the entries.
pub proof fn lemma_spec_set(es: Seq<(Seq<char>, Seq<char>)>, k: Seq<char>, v: Seq<char>)
    requires
        unique_keys(es),
    ensures
        unique_keys(spec_set(es, k, v)),
        spec_store_map(spec_set(es, k, v)) == spec_store_map(es).insert(k, v),
        newline_free_entries(es) && newline_free(k) && newline_free(v) ==> newline_free_entries(
            spec_set(es, k, v),
        ),
{
    let es2 = spec_set(es, k, v);
    if exists|i: int| 0 <= i < es.len() && es[i].0 == k {
        let ci = choose|i: int| 0 <= i < es.len() && es[i].0 == k;
        assert(es2 == es.update(ci, (k, v)));
        assert((es[ci].0, v) == (k, v));
        lemma_store_map_update(es, ci, v);
        assert(forall|x: int| 0 <= x < es.len() ==> es2[x].0 == es[x].0);
        assert(unique_keys(es2));
    } else {
        assert(es2 == es.push((k, v)));
        assert(es2.drop_last() =~= es);
        assert(es2.last() == (k, v));
        assert(forall|x: int| 0 <= x < es.len() ==> es2[x] == es[x]);
        assert(forall|x: int| 0 <= x < es.len() ==> es[x].0 != k);
        assert(unique_keys(es2));
    }
}

impl View for SettingSaver {
    type V = Map<Seq<char>, Seq<char>>;

    open spec fn view(&self) -> Map<Seq<char>, Seq<char>> {
        spec_store_map(self.entries_seq())
    }
}

impl SettingSaver {
    /// The entries as a sequence of key/value pairs, in storage order.
    pub closed spec fn entries_seq(&self) -> Seq<(Seq<char>, Seq<char>)> {
        self.entries@.map_values(|p: (String, String)| (p.0@, p.1@))
    }

    /// Well-formed: no key occurs twice.
    pub open spec fn wf(&self) -> bool {
        unique_keys(self.entries_seq())
    }

    /// An empty store.
    pub fn new() -> (s: Self)
        ensures
            s.wf(),
            s.entries_seq() == Seq::<(Seq<char>, Seq<char>)>::empty(),
            s@ == Map::<Seq<char>, Seq<char>>::empty(),
    {
        let s = SettingSaver { entries: Vec::new() };
        proof {
            assert(s.entries_seq() =~= Seq::<(Seq<char>, Seq<char>)>::empty());
        }
        s
    }

    /// The blob stored for `desktop`, or the empty string when none is.
    pub fn get_settings(&self, desktop: String) -> (r: String)
        requires
            self.wf(),
        ensures
            r@ == spec_lookup(self@, desktop@),
    {
        let ghost es = self.entries_seq();
        let mut i: usize = 0;
        while i < self.entries.len()
            invariant
                i <= self.entries.len(),
                es == self.entries_seq(),
                self.wf(),
                forall|j: int| 0 <= j < i ==> es[j].0 != desktop@,
            decreases self.entries.len() - i,
        {
            if self.entries[i].0 == desktop {
                proof {
                    lemma_store_map_value(es, i as int);
                }
                return self.entries[i].1.clone();
            }
            i += 1;
        }
        proof {
            lemma_store_map_contains(es, desktop@);
        }
        String::new()
    }

    /// Inserts or overwrites the entry for `desktop`. Never fails and does
    /// not itself persist anything.
    pub fn set_settings(&mut self, desktop: String, settings: String)
        requires
            old(self).wf(),
        ensures
            final(self).wf(),
            final(self).entries_seq() == spec_set(
                old(self).entries_seq(),
                desktop@,
                settings@,
            ),
            final(self)@ == old(self)@.insert(desktop@, settings@),
    {
        let ghost es = old(self).entries_seq();
        let ghost dv = desktop@;
        let ghost sv = settings@;
        let mut i: usize = 0;
        while i < self.entries.len()
            invariant
                i <= self.entries.len(),
                self == old(self),
                es == self.entries_seq(),
                desktop@ == dv,
                settings@ == sv,
                unique_keys(es),
                forall|j: int| 0 <= j < i ==> es[j].0 != dv,
            decreases self.entries.len() - i,
        {
            proof {
                assert(es[i as int] == (self.entries@[i as int].0@, self.entries@[i as int].1@));
            }
            if self.entries[i].0 == desktop {
                proof {
                    assert(es[i as int].0 == dv);
                    assert forall|j: int| 0 <= j < es.len() && j != i as int implies es[
                        j
                    ].0 != dv by {
                        if j < i as int {
                        } else {
                            assert(es[i as int].0 != es[j].0);
                        }
                    }
                }
                self.entries[i] = (desktop, settings);
                proof {
                    assert(self.entries_seq() =~= es.update(i as int, (dv, sv)));
                    let ci = choose|ix: int| 0 <= ix < es.len() && es[ix].0 == dv;
                    assert(ci == i as int);
                    assert((es[i as int].0, sv) == (dv, sv));
                    lemma_store_map_update(es, i as int, sv);
                    assert(unique_keys(self.entries_seq()));
                }
                return;
            }
            i += 1;
        }
        self.entries.push((desktop, settings));
        proof {
            assert(self.entries_seq() =~= es.push((dv, sv)));
            assert(!(exists|ix: int| 0 <= ix < es.len() && es[ix].0 == dv));
            assert(es.push((dv, sv)).drop_last() =~= es);
            assert(unique_keys(self.entries_seq()));
        }
    }

    /// The text to persist: each entry as a key line then a value line.
    pub fn save_settings(&self) -> (r: String)
        ensures
            r@ == spec_serialize(self.entries_seq()),
    {
        let ghost es = self.entries_seq();
        let mut out = String::new();
        let mut i: usize = 0;
        while i < self.entries.len()
            invariant
                i <= self.entries.len(),
                es == self.entries_seq(),
                out@ == spec_serialize(es.take(i as int)),
            decreases self.entries.len() - i,
        {
            out.append(self.entries[i].0.as_str());
            out.append("\n");
            out.append(self.entries[i].1.as_str());
            out.append("\n");
            proof {
                reveal_strlit("\n");
                assert("\n"@ =~= seq!['\n']);
                let p = es[i as int];
                assert(es.take(i as int).push(p) =~= es.take(i as int + 1));
                assert(es.take(i as int) + seq![p] =~= es.take(i as int + 1));
                lemma_serialize_concat(es.take(i as int), seq![p]);
                assert(seq![p].drop_first() =~= Seq::<(Seq<char>, Seq<char>)>::empty());
                assert(spec_serialize(Seq::<(Seq<char>, Seq<char>)>::empty())
                    == Seq::<char>::empty());
                assert(seq![p][0] == p);
                assert(spec_serialize(seq![p]) =~= p.0 + seq!['\n'] + p.1 + seq!['\n']);
                assert(out@ =~= spec_serialize(es.take(i as int + 1)));
            }
            i += 1;
        }
        proof {
            assert(es.take(self.entries.len() as int) =~= es);
        }
        out
    }

    /// Parses persisted settings text into a store. The text must consist
    /// of alternating key and value lines; an odd number of lines means a
    /// key without a value, and is a `ParseError`. A later entry for a key
    /// overwrites an earlier one.
    pub fn read_settings(content: &str) -> (r: Result<SettingSaver, LoadError>)
        ensures
            spec_lines(content@).len() % 2 == 0 ==> r is Ok && r->Ok_0.wf() && r->Ok_0@
                == spec_store_map(spec_pairs(spec_lines(content@))),
            spec_lines(content@).len() % 2 != 0 ==> r is Err && r->Err_0
                == LoadError::ParseError,
    {
        let n = content.unicode_len();
        let mut lines: Vec<String> = Vec::new();
        let mut start: usize = 0;
        let mut i: usize = 0;
        proof {
            assert(views_of(lines@) =~= Seq::<Seq<char>>::empty());
            assert(content@.skip(0) =~= content@);
        }
        while i < n
            invariant
                start <= i <= n,
                n == content@.len(),
                spec_lines(content@) == views_of(lines@) + spec_lines(
                    content@.skip(start as int),
                ),
                forall|j: int| start <= j < i ==> content@[j] != '\n',
            decreases n - i,
        {
            if content.get_char(i) == '\n' {
                let line = content.substring_char(start, i).to_owned();
                let ghost prev = lines@;
                lines.push(line);
                proof {
                    let lv = content@.subrange(start as int, i as int);
                    assert(newline_free(lv));
                    assert(content@.skip(start as int) =~= lv + seq!['\n'] + content@.skip(
                        i as int + 1,
                    ));
                    lemma_lines_concat(lv, content@.skip(i as int + 1));
                    assert(line@ == lv);
                    assert(views_of(lines@) =~= views_of(prev) + seq![lv]);
                    assert(views_of(lines@) + spec_lines(content@.skip(i as int + 1)) =~= views_of(
                        prev,
                    ) + (seq![lv] + spec_lines(content@.skip(i as int + 1))));
                }
                start = i + 1;
            }
            i += 1;
        }
        if start < n {
            let line = content.substring_char(start, n).to_owned();
            let ghost prev = lines@;
            lines.push(line);
            proof {
                let lv = content@.subrange(start as int, n as int);
                assert(lv =~= content@.skip(start as int));
                assert(newline_free(lv));
                lemma_lines_no_newline(lv);
                assert(views_of(lines@) =~= views_of(prev) + seq![lv]);
                assert(views_of(lines@) =~= spec_lines(content@));
            }
        } else {
            proof {
                assert(content@.skip(start as int) =~= Seq::<char>::empty());
                assert(views_of(lines@) + spec_lines(content@.skip(start as int)) =~= views_of(
                    lines@,
                ));
            }
        }
        if lines.len() % 2 != 0 {
            return Result::Err(LoadError::ParseError);
        }
        let ghost lv = views_of(lines@);
        let mut s = SettingSaver::new();
        let mut k: usize = 0;
        proof {
            assert(lv.take(0) =~= Seq::<Seq<char>>::empty());
        }
        while k < lines.len()
            invariant
                k <= lines.len(),
                k % 2 == 0,
                lines.len() % 2 == 0,
                lv == views_of(lines@),
                lv.len() == lines.len(),
                s.wf(),
                s@ == spec_store_map(spec_pairs(lv.take(k as int))),
            decreases lines.len() - k,
        {
            proof {
                assert(lines.len() - k >= 2) by {
                    assert(k % 2 == 0 && lines@.len() % 2 == 0 && k < lines@.len());
                };
            }
            let key = lines[k].clone();
            let value = lines[k + 1].clone();
            s.set_settings(key, value);
            proof {
                let p = (lv[k as int], lv[k as int + 1]);
                assert(lv.take(k as int + 2) =~= lv.take(k as int) + seq![p.0, p.1]);
                lemma_pairs_concat(lv.take(k as int), seq![p.0, p.1]);
                assert(seq![p.0, p.1].skip(2) =~= Seq::<Seq<char>>::empty());
                assert(spec_pairs(Seq::<Seq<char>>::empty()) == Seq::<(
                    Seq<char>,
                    Seq<char>,
                )>::empty());
                assert(seq![p.0, p.1][0] == p.0);
                assert(seq![p.0, p.1][1] == p.1);
                assert(spec_pairs(seq![p.0, p.1]) =~= seq![p]);
                let pre = spec_pairs(lv.take(k as int));
                assert(spec_pairs(lv.take(k as int + 2)) =~= pre.push(p));
                assert(pre.push(p).drop_last() =~= pre);
                assert(pre.push(p).last() == p);
                assert(s@ == spec_store_map(pre).insert(p.0, p.1));
            }
            k += 2;
        }
        proof {
            assert(lv.take(lines.len() as int) =~= lv);
        }
        Result::Ok(s)
    }

    /// Loads a store from the persisted file's text. A missing file
    /// (`None`) yields an empty store and no error.
    pub fn load_settings(content: Option<&str>) -> (r: Result<SettingSaver, LoadError>)
        ensures
            content is None ==> r is Ok && r->Ok_0.wf() && r->Ok_0@ == Map::<
                Seq<char>,
                Seq<char>,
            >::empty(),
            content matches Some(c) ==> {
                &&& spec_lines(c@).len() % 2 == 0 ==> r is Ok && r->Ok_0.wf() && r->Ok_0@
                    == spec_store_map(spec_pairs(spec_lines(c@)))
                &&& spec_lines(c@).len() % 2 != 0 ==> r is Err && r->Err_0
                    == LoadError::ParseError
            },
    {
        match content {
            Option::None => Result::Ok(SettingSaver::new()),
            Option::Some(c) => SettingSaver::read_settings(c),
        }
    }
}

} // verus!
