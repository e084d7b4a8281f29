//! Corpus-wide frequency analysis: counts of declared components, of event
//! names, and of call-like tokens found in event bodies, over a set of
//! script file contents, with a stable top-N ranking.

use vstd::prelude::*;

use crate::meta_lang::{parse_entities, spec_parse_entities, Entity, EntityView, EventView};
use crate::text::{is_space, skip_ws, spec_skip_ws, str_to_chars, subvec};

verus! {

/// An ASCII letter or underscore: what may open an identifier.
pub open spec fn is_ident_start_char(c: char) -> bool {
    ('A' <= c && c <= 'Z') || ('a' <= c && c <= 'z') || c == '_'
}

/// An identifier head character.
#[verifier::when_used_as_spec(is_ident_start_char)]
pub fn is_ident_start(c: char) -> (r: bool)
    ensures
        r == is_ident_start_char(c),
{
    ('A' <= c && c <= 'Z') || ('a' <= c && c <= 'z') || c == '_'
}

/// An identifier character: a head character or an ASCII digit.
pub open spec fn is_ident_continue_char(c: char) -> bool {
    is_ident_start_char(c) || ('0' <= c && c <= '9')
}

#[verifier::when_used_as_spec(is_ident_continue_char)]
pub fn is_ident_continue(c: char) -> (r: bool)
    ensures
        r == is_ident_continue_char(c),
{
    is_ident_start(c) || ('0' <= c && c <= '9')
}

/// A bare identifier: one head character followed only by identifier
/// characters.
pub open spec fn is_bare_ident(s: Seq<char>) -> bool {
    s.len() > 0 && is_ident_start_char(s[0]) && forall|i: int|
        1 <= i < s.len() ==> is_ident_continue_char(#[trigger] s[i])
}

/// Whether the characters of `v` form a bare identifier.
pub fn check_bare_ident(v: &Vec<char>) -> (r: bool)
    ensures
        r == is_bare_ident(v@),
{
    if v.len() == 0 {
        return false;
    }
    if !is_ident_start(v[0]) {
        return false;
    }
    let mut i: usize = 1;
    while i < v.len()
        invariant
            1 <= i <= v.len(),
            v@.len() > 0 && is_ident_start_char(v@[0]),
            forall|k: int| 1 <= k < i ==> is_ident_continue_char(#[trigger] v@[k]),
        decreases v.len() - i,
    {
        if !is_ident_continue(v[i]) {
            return false;
        }
        i = i + 1;
    }
    true
}

/// First position at or after `i` that does not continue an identifier.
pub open spec fn spec_scan_ident_end(s: Seq<char>, i: int) -> int
    decreases s.len() - i,
{
    if i < 0 || i >= s.len() || !is_ident_continue_char(s[i]) {
        i
    } else {
        spec_scan_ident_end(s, i + 1)
    }
}

fn scan_ident_end(v: &Vec<char>, i: usize) -> (j: usize)
    requires
        i <= v.len(),
    ensures
        j == spec_scan_ident_end(v@, i as int),
        i <= j <= v.len(),
{
    let mut j: usize = i;
    while j < v.len() && is_ident_continue(v[j])
        invariant
            i <= j <= v.len(),
            spec_scan_ident_end(v@, i as int) == spec_scan_ident_end(v@, j as int),
        decreases v.len() - j,
    {
        j = j + 1;
    }
    j
}

/// The call-like tokens of an event body from position `i` on: each maximal
/// identifier that, after optional whitespace, is followed by `(`. The scan
/// never starts a token at the last character.
pub open spec fn spec_call_tokens_from(b: Seq<char>, i: int) -> Seq<Seq<char>>
    decreases b.len() - i,
{
    if i < 0 || i + 1 >= b.len() {
        Seq::empty()
    } else if is_ident_start_char(b[i]) {
        let j1r = spec_scan_ident_end(b, i + 1);
        let j1 = if i + 1 <= j1r <= b.len() {
            j1r
        } else {
            i + 1
        };
        let j2r = spec_skip_ws(b, j1);
        let j2 = if j1 <= j2r <= b.len() {
            j2r
        } else {
            j1
        };
        let rest = spec_call_tokens_from(b, j2);
        if j2 < b.len() && b[j2] == '(' {
            seq![b.subrange(i, j1)] + rest
        } else {
            rest
        }
    } else {
        spec_call_tokens_from(b, i + 1)
    }
}

/// The call-like tokens of a whole body.
pub open spec fn spec_call_tokens(b: Seq<char>) -> Seq<Seq<char>> {
    spec_call_tokens_from(b, 0)
}

/// Scans a body for call-like tokens.
pub fn call_tokens(b: &Vec<char>) -> (r: Vec<Vec<char>>)
    ensures
        r.deep_view() == spec_call_tokens(b@),
{
    let mut r: Vec<Vec<char>> = Vec::new();
    let mut i: usize = 0;
    proof {
        assert(r.deep_view() + spec_call_tokens_from(b@, 0) =~~= spec_call_tokens(b@));
    }
    while i < b.len() && i + 1 < b.len()
        invariant
            0 <= i <= b.len(),
            spec_call_tokens(b@) == r.deep_view() + spec_call_tokens_from(b@, i as int),
        decreases b.len() - i,
    {
        if is_ident_start(b[i]) {
            let j1 = scan_ident_end(b, i + 1);
            let j2 = skip_ws(b, j1);
            if j2 < b.len() && b[j2] == '(' {
                let tok = subvec(b, i, j1);
                let ghost r0 = r.deep_view();
                r.push(tok);
                proof {
                    assert(r.deep_view() =~~= r0.push(b@.subrange(i as int, j1 as int)));
                    assert(r.deep_view() + spec_call_tokens_from(b@, j2 as int)
                        =~~= spec_call_tokens(b@));
                }
            }
            i = j2;
        } else {
            i = i + 1;
        }
    }
    proof {
        assert(spec_call_tokens_from(b@, i as int) =~= Seq::<Seq<char>>::empty());
        assert(r.deep_view() =~~= spec_call_tokens(b@));
    }
    r
}

pub open spec fn count_entries_view(es: Seq<(String, usize)>) -> Seq<(Seq<char>, int)>
    decreases es,
{
    if es.len() == 0 {
        Seq::empty()
    } else {
        seq![(es[0].0@, es[0].1 as int)] + count_entries_view(es.drop_first())
    }
}

pub broadcast proof fn lemma_count_view_len(es: Seq<(String, usize)>)
    ensures
        #[trigger] count_entries_view(es).len() == es.len(),
    decreases es.len(),
{
    if es.len() > 0 {
        lemma_count_view_len(es.drop_first());
    }
}

pub broadcast proof fn lemma_count_view_index(es: Seq<(String, usize)>, i: int)
    requires
        0 <= i < es.len(),
    ensures
        #[trigger] count_entries_view(es)[i] == (es[i].0@, es[i].1 as int),
    decreases es.len(),
{
    broadcast use lemma_count_view_len;

    if i > 0 {
        lemma_count_view_index(es.drop_first(), i - 1);
    }
}

pub broadcast proof fn lemma_count_view_push(es: Seq<(String, usize)>, x: (String, usize))
    ensures
        #[trigger] count_entries_view(es.push(x)) == count_entries_view(es).push(
            (x.0@, x.1 as int),
        ),
{
    broadcast use lemma_count_view_len, lemma_count_view_index;

    assert forall|i: int| 0 <= i < es.len() + 1 implies count_entries_view(es.push(x))[i]
        == count_entries_view(es).push((x.0@, x.1 as int))[i] by {
        lemma_count_view_index(es.push(x), i);
        if i < es.len() {
            lemma_count_view_index(es, i);
        }
    }
    assert(count_entries_view(es.push(x)) =~= count_entries_view(es).push((x.0@, x.1 as int)));
}

/// The count recorded under `k`; zero when `k` is absent.
pub open spec fn spec_count_of(m: Seq<(Seq<char>, int)>, k: Seq<char>) -> int
    decreases m.len(),
{
    if m.len() == 0 {
        0
    } else if m[0].0 == k {
        m[0].1
    } else {
        spec_count_of(m.drop_first(), k)
    }
}

/// The map with the count under `k` raised by one: the first entry holding
/// `k` is raised (saturating at the machine bound), or a new entry with
/// count one is appended.
pub open spec fn spec_bump(m: Seq<(Seq<char>, int)>, k: Seq<char>) -> Seq<(Seq<char>, int)>
    decreases m.len(),
{
    if m.len() == 0 {
        seq![(k, 1int)]
    } else if m[0].0 == k {
        let c = m[0].1;
        seq![(m[0].0, if c < usize::MAX { c + 1 } else { c })] + m.drop_first()
    } else {
        seq![m[0]] + spec_bump(m.drop_first(), k)
    }
}

/// The map after raising the count of every key of `keys`, in order.
pub open spec fn spec_bump_all(m: Seq<(Seq<char>, int)>, keys: Seq<Seq<char>>) -> Seq<
    (Seq<char>, int),
>
    decreases keys.len(),
{
    if keys.len() == 0 {
        m
    } else {
        spec_bump_all(spec_bump(m, keys[0]), keys.drop_first())
    }
}

/// A frequency map from names to counts, keeping first-insertion order.
pub struct CountMap {
    entries: Vec<(String, usize)>,
}

impl View for CountMap {
    type V = Seq<(Seq<char>, int)>;

    closed spec fn view(&self) -> Seq<(Seq<char>, int)> {
        count_entries_view(self.entries@)
    }
}

impl CountMap {
    /// An empty map.
    pub fn new() -> (r: Self)
        ensures
            r@ == Seq::<(Seq<char>, int)>::empty(),
    {
        let r = CountMap { entries: Vec::new() };
        proof {
            assert(r@ =~= Seq::<(Seq<char>, int)>::empty());
        }
        r
    }

    /// The number of distinct names recorded.
    pub fn len(&self) -> (n: usize)
        ensures
            n == self@.len(),
    {
        proof {
            broadcast use lemma_count_view_len;

        }
        self.entries.len()
    }

    /// The name at position `i`, in first-insertion order.
    pub fn key_at(&self, i: usize) -> (r: &String)
        requires
            i < self@.len(),
        ensures
            r@ == self@[i as int].0,
    {
        proof {
            broadcast use lemma_count_view_len;

            lemma_count_view_index(self.entries@, i as int);
        }
        &self.entries[i].0
    }

    /// The count at position `i`, in first-insertion order.
    pub fn count_at(&self, i: usize) -> (r: usize)
        requires
            i < self@.len(),
        ensures
            r as int == self@[i as int].1,
    {
        proof {
            broadcast use lemma_count_view_len;

            lemma_count_view_index(self.entries@, i as int);
        }
        self.entries[i].1
    }

    /// The count recorded under `name`; zero when absent.
    pub fn get(&self, name: &str) -> (r: usize)
        ensures
            r as int == spec_count_of(self@, name@),
    {
        broadcast use lemma_count_view_len;

        let key = name.to_owned();
        let mut i: usize = 0;
        proof {
            assert(self@.subrange(0, self@.len() as int) =~= self@);
        }
        while i < self.entries.len()
            invariant
                0 <= i <= self.entries.len(),
                key@ == name@,
                spec_count_of(self@, name@) == spec_count_of(
                    self@.subrange(i as int, self@.len() as int),
                    name@,
                ),
                self@.len() == self.entries@.len(),
            decreases self.entries.len() - i,
        {
            broadcast use lemma_count_view_len;

            let ghost rem = self@.subrange(i as int, self@.len() as int);
            proof {
                lemma_count_view_index(self.entries@, i as int);
                assert(rem[0] == self@[i as int]);
                assert(rem.drop_first() =~= self@.subrange(i + 1, self@.len() as int));
            }
            if self.entries[i].0 == key {
                return self.entries[i].1;
            }
            i = i + 1;
        }
        proof {
            assert(self@.subrange(i as int, self@.len() as int) =~= Seq::<
                (Seq<char>, int),
            >::empty());
        }
        0
    }

    /// Raises the count under `name` by one, inserting it with count one
    /// when absent.
    pub fn bump(&mut self, name: &str)
        ensures
            final(self)@ == spec_bump(old(self)@, name@),
    {
        broadcast use lemma_count_view_len;

        let ghost t0 = self@;
        let key = name.to_owned();
        let mut out: Vec<(String, usize)> = Vec::new();
        let mut done = false;
        let mut i: usize = 0;
        proof {
            assert(t0.subrange(0, t0.len() as int) =~= t0);
            assert(count_entries_view(out@) + spec_bump(t0, name@) =~= spec_bump(t0, name@));
        }
        while i < self.entries.len()
            invariant
                0 <= i <= self.entries.len(),
                t0 == self@,
                key@ == name@,
                t0.len() == self.entries@.len(),
                if done {
                    spec_bump(t0, name@) == count_entries_view(out@) + t0.subrange(
                        i as int,
                        t0.len() as int,
                    )
                } else {
                    spec_bump(t0, name@) == count_entries_view(out@) + spec_bump(
                        t0.subrange(i as int, t0.len() as int),
                        name@,
                    )
                },
            decreases self.entries.len() - i,
        {
            broadcast use lemma_count_view_len;

            let ghost rem = t0.subrange(i as int, t0.len() as int);
            let ghost out0 = out@;
            proof {
                lemma_count_view_index(self.entries@, i as int);
                assert(rem[0] == t0[i as int]);
                assert(rem.drop_first() =~= t0.subrange(i + 1, t0.len() as int));
            }
            let same = self.entries[i].0 == key;
            if !done && same {
                let c = self.entries[i].1;
                let c2 = if c < usize::MAX {
                    c + 1
                } else {
                    c
                };
                let k2 = self.entries[i].0.clone();
                let ghost gx = (k2, c2);
                out.push((k2, c2));
                done = true;
                proof {
                    lemma_count_view_push(out0, gx);
                    assert(out@ == out0.push(gx));
                    assert(count_entries_view(out@) + t0.subrange(i + 1, t0.len() as int)
                        =~= spec_bump(t0, name@));
                }
            } else {
                let k2 = self.entries[i].0.clone();
                let c2 = self.entries[i].1;
                let ghost gx = (k2, c2);
                out.push((k2, c2));
                proof {
                    lemma_count_view_push(out0, gx);
                    assert(out@ == out0.push(gx));
                    if done {
                        assert(count_entries_view(out@) + t0.subrange(i + 1, t0.len() as int)
                            =~= spec_bump(t0, name@));
                    } else {
                        assert(count_entries_view(out@) + spec_bump(
                            t0.subrange(i + 1, t0.len() as int),
                            name@,
                        ) =~= spec_bump(t0, name@));
                    }
                }
            }
            i = i + 1;
        }
        proof {
            assert(t0.subrange(i as int, t0.len() as int) =~= Seq::<(Seq<char>, int)>::empty());
        }
        if !done {
            let ghost out0 = out@;
            let ghost gx = (key, 1usize);
            out.push((key, 1));
            proof {
                lemma_count_view_push(out0, gx);
                assert(out@ == out0.push(gx));
                assert(count_entries_view(out@) =~= spec_bump(t0, name@));
            }
        } else {
            proof {
                assert(count_entries_view(out@) =~= spec_bump(t0, name@));
            }
        }
        self.entries = out;
    }
}

/// The three frequency maps one analysis run produces.
pub struct CorpusStats {
    pub components: CountMap,
    pub events: CountMap,
    pub calls: CountMap,
}

/// The event-name and call-token maps after accumulating the events of one
/// entity, in order.
pub open spec fn spec_acc_events(
    ev: Seq<(Seq<char>, int)>,
    ca: Seq<(Seq<char>, int)>,
    events: Seq<EventView>,
) -> (Seq<(Seq<char>, int)>, Seq<(Seq<char>, int)>)
    decreases events.len(),
{
    if events.len() == 0 {
        (ev, ca)
    } else {
        let ev2 = spec_bump(ev, events[0].name);
        let ca2 = spec_bump_all(ca, spec_call_tokens(events[0].body));
        spec_acc_events(ev2, ca2, events.drop_first())
    }
}

/// All three maps after accumulating a sequence of entities, in order.
pub open spec fn spec_acc_entities(
    co: Seq<(Seq<char>, int)>,
    ev: Seq<(Seq<char>, int)>,
    ca: Seq<(Seq<char>, int)>,
    es: Seq<EntityView>,
) -> (Seq<(Seq<char>, int)>, Seq<(Seq<char>, int)>, Seq<(Seq<char>, int)>)
    decreases es.len(),
{
    if es.len() == 0 {
        (co, ev, ca)
    } else {
        let co2 = spec_bump_all(co, es[0].components);
        let r = spec_acc_events(ev, ca, es[0].events);
        spec_acc_entities(co2, r.0, r.1, es.drop_first())
    }
}

/// All three maps after analyzing every file's entities, in file order.
pub open spec fn spec_analyze(
    co: Seq<(Seq<char>, int)>,
    ev: Seq<(Seq<char>, int)>,
    ca: Seq<(Seq<char>, int)>,
    files: Seq<Seq<char>>,
) -> (Seq<(Seq<char>, int)>, Seq<(Seq<char>, int)>, Seq<(Seq<char>, int)>)
    decreases files.len(),
{
    if files.len() == 0 {
        (co, ev, ca)
    } else {
        let r = spec_acc_entities(co, ev, ca, spec_parse_entities(files[0]));
        spec_analyze(r.0, r.1, r.2, files.drop_first())
    }
}

fn bump_all(m: &mut CountMap, keys: &Vec<String>)
    ensures
        final(m)@ == spec_bump_all(old(m)@, keys.deep_view()),
{
    let ghost ks = keys.deep_view();
    let mut i: usize = 0;
    proof {
        assert(ks.subrange(0, ks.len() as int) =~= ks);
    }
    while i < keys.len()
        invariant
            0 <= i <= keys.len(),
            ks == keys.deep_view(),
            ks.len() == keys@.len(),
            spec_bump_all(old(m)@, ks) == spec_bump_all(
                m@,
                ks.subrange(i as int, ks.len() as int),
            ),
        decreases keys.len() - i,
    {
        let ghost rem = ks.subrange(i as int, ks.len() as int);
        proof {
            assert(rem[0] == ks[i as int]);
            assert(ks[i as int] == keys@[i as int]@);
            assert(rem.drop_first() =~= ks.subrange(i + 1, ks.len() as int));
        }
        m.bump(keys[i].as_str());
        i = i + 1;
    }
    proof {
        assert(ks.subrange(i as int, ks.len() as int) =~= Seq::<Seq<char>>::empty());
    }
}

fn bump_tokens(m: &mut CountMap, body: &String)
    ensures
        final(m)@ == spec_bump_all(old(m)@, spec_call_tokens(body@)),
{
    let bv = str_to_chars(body.as_str());
    let toks = call_tokens(&bv);
    let ghost ks = toks.deep_view();
    let mut i: usize = 0;
    proof {
        assert(ks.subrange(0, ks.len() as int) =~= ks);
    }
    while i < toks.len()
        invariant
            0 <= i <= toks.len(),
            ks == toks.deep_view(),
            ks.len() == toks@.len(),
            spec_bump_all(old(m)@, ks) == spec_bump_all(
                m@,
                ks.subrange(i as int, ks.len() as int),
            ),
        decreases toks.len() - i,
    {
        let ghost rem = ks.subrange(i as int, ks.len() as int);
        proof {
            assert(rem[0] == ks[i as int]);
            assert(ks[i as int] == toks@[i as int]@);
            assert(rem.drop_first() =~= ks.subrange(i + 1, ks.len() as int));
        }
        let tok = crate::text::chars_to_string(&toks[i]);
        m.bump(tok.as_str());
        i = i + 1;
    }
    proof {
        assert(ks.subrange(i as int, ks.len() as int) =~= Seq::<Seq<char>>::empty());
    }
}

/// Accumulates the component, event and call-token counts of every entity
/// of every file, in order. What the rankings of a corpus analysis are
/// computed from.
pub fn analyze_sources(files: &Vec<String>) -> (r: CorpusStats)
    requires
        forall|i: int| 0 <= i < files@.len() ==> (#[trigger] files@[i])@.len() < usize::MAX,
    ensures
        (r.components@, r.events@, r.calls@) == spec_analyze(
            Seq::<(Seq<char>, int)>::empty(),
            Seq::<(Seq<char>, int)>::empty(),
            Seq::<(Seq<char>, int)>::empty(),
            files.deep_view(),
        ),
{
    let mut co = CountMap::new();
    let mut ev = CountMap::new();
    let mut ca = CountMap::new();
    let ghost fs = files.deep_view();
    let mut i: usize = 0;
    proof {
        assert(fs.subrange(0, fs.len() as int) =~= fs);
    }
    while i < files.len()
        invariant
            0 <= i <= files.len(),
            fs == files.deep_view(),
            fs.len() == files@.len(),
            forall|k: int| 0 <= k < files@.len() ==> (#[trigger] files@[k])@.len() < usize::MAX,
            spec_analyze(
                Seq::<(Seq<char>, int)>::empty(),
                Seq::<(Seq<char>, int)>::empty(),
                Seq::<(Seq<char>, int)>::empty(),
                fs,
            ) == spec_analyze(co@, ev@, ca@, fs.subrange(i as int, fs.len() as int)),
        decreases files.len() - i,
    {
        let ghost rem = fs.subrange(i as int, fs.len() as int);
        proof {
            assert(rem[0] == fs[i as int]);
            assert(fs[i as int] == files@[i as int]@);
            assert(rem.drop_first() =~= fs.subrange(i + 1, fs.len() as int));
        }
        let entities = parse_entities(files[i].as_str());
        let ghost es = entities.deep_view();
        let ghost co0 = co@;
        let ghost ev0 = ev@;
        let ghost ca0 = ca@;
        let mut j: usize = 0;
        proof {
            assert(es.subrange(0, es.len() as int) =~= es);
        }
        while j < entities.len()
            invariant
                0 <= j <= entities.len(),
                es == entities.deep_view(),
                es.len() == entities@.len(),
                spec_acc_entities(co0, ev0, ca0, es) == spec_acc_entities(
                    co@,
                    ev@,
                    ca@,
                    es.subrange(j as int, es.len() as int),
                ),
            decreases entities.len() - j,
        {
            let ghost erem = es.subrange(j as int, es.len() as int);
            proof {
                assert(erem[0] == es[j as int]);
                assert(es[j as int] == entities@[j as int].deep_view());
                assert(erem.drop_first() =~= es.subrange(j + 1, es.len() as int));
            }
            bump_all(&mut co, &entities[j].components);
            let ghost evs = es[j as int].events;
            let ghost ev1 = ev@;
            let ghost ca1 = ca@;
            let mut k: usize = 0;
            proof {
                assert(evs.subrange(0, evs.len() as int) =~= evs);
                assert(evs == entities@[j as int].events.deep_view());
            }
            while k < entities[j].events.len()
                invariant
                    0 <= j < entities.len(),
                    0 <= k <= entities@[j as int].events@.len(),
                    evs == entities@[j as int].events.deep_view(),
                    evs.len() == entities@[j as int].events@.len(),
                    spec_acc_events(ev1, ca1, evs) == spec_acc_events(
                        ev@,
                        ca@,
                        evs.subrange(k as int, evs.len() as int),
                    ),
                decreases entities@[j as int].events@.len() - k,
            {
                let ghost vrem = evs.subrange(k as int, evs.len() as int);
                proof {
                    assert(vrem[0] == evs[k as int]);
                    assert(evs[k as int] == entities@[j as int].events@[k as int].deep_view());
                    assert(vrem.drop_first() =~= evs.subrange(k + 1, evs.len() as int));
                }
                ev.bump(entities[j].events[k].name.as_str());
                bump_tokens(&mut ca, &entities[j].events[k].body);
                k = k + 1;
            }
            proof {
                assert(evs.subrange(k as int, evs.len() as int) =~= Seq::<EventView>::empty());
            }
            j = j + 1;
        }
        proof {
            assert(es.subrange(j as int, es.len() as int) =~= Seq::<EntityView>::empty());
        }
        i = i + 1;
    }
    proof {
        assert(fs.subrange(i as int, fs.len() as int) =~= Seq::<Seq<char>>::empty());
    }
    CorpusStats { components: co, events: ev, calls: ca }
}

/// `x` placed into `sorted` after every entry whose count is at least its
/// own: the insertion step of a stable descending sort.
pub open spec fn spec_insert_desc(sorted: Seq<(Seq<char>, int)>, x: (Seq<char>, int)) -> Seq<
    (Seq<char>, int),
>
    decreases sorted.len(),
{
    if sorted.len() == 0 {
        seq![x]
    } else if sorted[0].1 >= x.1 {
        seq![sorted[0]] + spec_insert_desc(sorted.drop_first(), x)
    } else {
        seq![x] + sorted
    }
}

/// The entries sorted by count, descending, ties keeping first-insertion
/// order: each entry inserted in turn behind its equals.
pub open spec fn spec_sort_desc(s: Seq<(Seq<char>, int)>) -> Seq<(Seq<char>, int)>
    decreases s.len(),
{
    if s.len() == 0 {
        Seq::empty()
    } else {
        spec_insert_desc(spec_sort_desc(s.drop_last()), s.last())
    }
}

/// The first `n` entries of the stable descending sort of `m`.
pub open spec fn spec_top_n(m: Seq<(Seq<char>, int)>, n: int) -> Seq<(Seq<char>, int)> {
    let sorted = spec_sort_desc(m);
    if n <= sorted.len() {
        sorted.subrange(0, n)
    } else {
        sorted
    }
}

proof fn lemma_insert_desc_at(s: Seq<(Seq<char>, int)>, x: (Seq<char>, int), pos: int)
    requires
        0 <= pos <= s.len(),
        forall|j: int| 0 <= j < pos ==> (#[trigger] s[j]).1 >= x.1,
        pos < s.len() ==> s[pos].1 < x.1,
    ensures
        spec_insert_desc(s, x) == s.subrange(0, pos) + seq![x] + s.subrange(pos, s.len() as int),
    decreases pos,
{
    if pos == 0 {
        assert(s.subrange(0, 0) =~= Seq::<(Seq<char>, int)>::empty());
        assert(s.subrange(0, s.len() as int) =~= s);
        if s.len() == 0 {
            assert(spec_insert_desc(s, x) =~= s.subrange(0, 0) + seq![x] + s.subrange(
                0,
                s.len() as int,
            ));
        } else {
            assert(s[0].1 < x.1);
            assert(spec_insert_desc(s, x) =~= s.subrange(0, 0) + seq![x] + s.subrange(
                0,
                s.len() as int,
            ));
        }
    } else {
        assert(s[0].1 >= x.1);
        let t = s.drop_first();
        assert(forall|j: int| 0 <= j < pos - 1 ==> (#[trigger] t[j]).1 >= x.1) by {
            assert(forall|j: int| 0 <= j < pos - 1 ==> t[j] == s[j + 1]);
        }
        lemma_insert_desc_at(t, x, pos - 1);
        assert(t.subrange(0, pos - 1) =~= s.subrange(1, pos));
        assert(t.subrange(pos - 1, t.len() as int) =~= s.subrange(pos, s.len() as int));
        assert(spec_insert_desc(s, x) =~= s.subrange(0, pos) + seq![x] + s.subrange(
            pos,
            s.len() as int,
        ));
    }
}

/// The `n` highest counts of an entry list, descending, ties broken by
/// first-insertion order.
pub fn top_n_entries(entries: &Vec<(String, usize)>, n: usize) -> (r: Vec<(String, usize)>)
    ensures
        count_entries_view(r@) == spec_top_n(count_entries_view(entries@), n as int),
{
    broadcast use lemma_count_view_len, lemma_count_view_index, lemma_count_view_push;

    let ghost mv = count_entries_view(entries@);
    let m = entries.len();
    let mut sorted: Vec<(String, usize)> = Vec::new();
    let mut i: usize = 0;
    proof {
        assert(mv.subrange(0, 0) =~= Seq::<(Seq<char>, int)>::empty());
        assert(count_entries_view(sorted@) =~= spec_sort_desc(mv.subrange(0, 0)));
    }
    while i < m
        invariant
            0 <= i <= m,
            mv == count_entries_view(entries@),
            m == mv.len(),
            m == entries@.len(),
            count_entries_view(sorted@) == spec_sort_desc(mv.subrange(0, i as int)),
            sorted@.len() == i,
        decreases m - i,
    {
        broadcast use lemma_count_view_len, lemma_count_view_index;

        proof {
            lemma_count_view_index(entries@, i as int);
        }
        let key = entries[i].0.clone();
        let count = entries[i].1;
        let ghost x = (key@, count as int);
        proof {
            assert(x == mv[i as int]);
        }
        let ghost s0 = count_entries_view(sorted@);
        let mut pos: usize = 0;
        while pos < sorted.len() && sorted[pos].1 >= count
            invariant
                0 <= pos <= sorted.len(),
                s0 == count_entries_view(sorted@),
                s0.len() == sorted@.len(),
                forall|j: int| 0 <= j < pos ==> (#[trigger] s0[j]).1 >= count as int,
            decreases sorted.len() - pos,
        {
            proof {
                lemma_count_view_index(sorted@, pos as int);
            }
            pos = pos + 1;
        }
        proof {
            if pos < sorted.len() {
                lemma_count_view_index(sorted@, pos as int);
            }
        }
        let ghost sold = sorted@;
        sorted.insert(pos, (key, count));
        proof {
            lemma_insert_desc_at(s0, x, pos as int);
            assert forall|j: int| 0 <= j < sorted@.len() implies #[trigger] count_entries_view(
                sorted@,
            )[j] == spec_insert_desc(s0, x)[j] by {
                lemma_count_view_index(sorted@, j);
                if j < pos {
                    lemma_count_view_index(sold, j);
                    assert(sorted@[j] == sold[j]);
                } else if j > pos {
                    lemma_count_view_index(sold, j - 1);
                    assert(sorted@[j] == sold[j - 1]);
                }
            }
            assert(count_entries_view(sorted@) =~= spec_insert_desc(s0, x));
            assert(mv.subrange(0, i + 1).drop_last() =~= mv.subrange(0, i as int));
            assert(mv.subrange(0, i + 1).last() == mv[i as int]);
        }
        i = i + 1;
    }
    proof {
        assert(mv.subrange(0, m as int) =~= mv);
    }
    let keep = if n < sorted.len() {
        n
    } else {
        sorted.len()
    };
    let ghost full = count_entries_view(sorted@);
    let ghost before = sorted@;
    sorted.truncate(keep);
    proof {
        assert forall|j: int| 0 <= j < sorted@.len() implies #[trigger] count_entries_view(
            sorted@,
        )[j] == spec_top_n(mv, n as int)[j] by {
            lemma_count_view_index(sorted@, j);
            lemma_count_view_index(before, j);
            assert(sorted@[j] == before[j]);
        }
        assert(count_entries_view(sorted@) =~= spec_top_n(mv, n as int));
    }
    sorted
}

/// The `n` highest counts of the map, descending, ties broken by
/// first-insertion order.
pub fn top_n(map: &CountMap, n: usize) -> (r: Vec<(String, usize)>)
    ensures
        count_entries_view(r@) == spec_top_n(map@, n as int),
{
    top_n_entries(&map.entries, n)
}

} // verus!
