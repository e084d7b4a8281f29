//! The entity definition language: `entity Name { components: [A, B]; on
//! Event(params) { body } }`. Parsing is best-effort and never fails:
//! malformed text yields fewer or empty entities, and unmatched braces end
//! the scan at end of input.

use vstd::prelude::*;

use crate::text::{
    at_match, brace_end, chars_to_string, find_sub, scan_name_end, scan_to, skip_ws,
    spec_brace_end, spec_find_sub, spec_scan_name_end, spec_scan_to, spec_skip_ws, spec_split,
    spec_trim, split_vec, starts_with_at, str_to_chars, subvec, trim_vec,
};

verus! {

/// One `on Name(params) { body }` handler. The body holds the raw text
/// between the handler's braces, trimmed, never the braces themselves.
#[derive(Debug, Clone)]
pub struct Event {
    pub name: String,
    pub params: Option<String>,
    pub body: String,
}

/// One `entity Name { ... }` block: declared component tags in declaration
/// order (duplicates allowed) and handlers in source order.
#[derive(Debug, Clone)]
pub struct Entity {
    pub name: String,
    pub components: Vec<String>,
    pub events: Vec<Event>,
}

pub struct EventView {
    pub name: Seq<char>,
    pub params: Option<Seq<char>>,
    pub body: Seq<char>,
}

pub struct EntityView {
    pub name: Seq<char>,
    pub components: Seq<Seq<char>>,
    pub events: Seq<EventView>,
}

impl View for Event {
    type V = EventView;

    open spec fn view(&self) -> EventView {
        EventView {
            name: self.name@,
            params: match self.params {
                Some(p) => Some(p@),
                None => None,
            },
            body: self.body@,
        }
    }
}

impl DeepView for Event {
    type V = EventView;

    open spec fn deep_view(&self) -> EventView {
        self.view()
    }
}

impl View for Entity {
    type V = EntityView;

    open spec fn view(&self) -> EntityView {
        EntityView {
            name: self.name@,
            components: self.components.deep_view(),
            events: self.events.deep_view(),
        }
    }
}

impl DeepView for Entity {
    type V = EntityView;

    open spec fn deep_view(&self) -> EntityView {
        self.view()
    }
}

/// Pieces trimmed, empty pieces dropped: the cleanup applied to a split
/// component list.
pub open spec fn spec_clean_pieces(ps: Seq<Seq<char>>) -> Seq<Seq<char>>
    decreases ps.len(),
{
    if ps.len() == 0 {
        Seq::empty()
    } else {
        let t = spec_trim(ps[0]);
        let rest = spec_clean_pieces(ps.drop_first());
        if t.len() == 0 {
            rest
        } else {
            seq![t] + rest
        }
    }
}

/// The component list of an entity block: the text between `[` and `]` after
/// the first `components:` key, split on commas, trimmed, empties dropped.
pub open spec fn spec_components(b: Seq<char>) -> Seq<Seq<char>> {
    match spec_find_sub(b, 0, "components:"@) {
        None => Seq::empty(),
        Some(ci) => {
            let op = spec_scan_to(b, ci, '[');
            if op >= b.len() {
                Seq::empty()
            } else {
                let close = spec_scan_to(b, op + 1, ']');
                if close >= b.len() {
                    Seq::empty()
                } else {
                    spec_clean_pieces(spec_split(b.subrange(op + 1, close), ','))
                }
            }
        },
    }
}

/// One event parsed starting just past an `on ` keyword at `j0`: its view
/// and the position the scan continues at. `None` when no `{` follows, which
/// ends event scanning for the block.
pub open spec fn spec_parse_event_at(b: Seq<char>, j0: int) -> Option<(EventView, int)> {
    let p = spec_skip_ws(b, j0);
    let ne = spec_scan_name_end(b, p, '(');
    let name = spec_trim(b.subrange(p, ne));
    let has_params = ne < b.len() && b[ne] == '(';
    let params = if has_params {
        Some(spec_trim(b.subrange(ne + 1, spec_scan_to(b, ne + 1, ')'))))
    } else {
        None
    };
    let after = if has_params {
        let pe = spec_scan_to(b, ne + 1, ')');
        if pe < b.len() {
            pe + 1
        } else {
            pe
        }
    } else {
        ne
    };
    let ob = spec_scan_to(b, after, '{');
    if ob >= b.len() {
        None
    } else {
        let close = spec_brace_end(b, ob + 1, 1);
        let body = if ob + 1 <= close - 1 {
            spec_trim(b.subrange(ob + 1, close - 1))
        } else {
            Seq::empty()
        };
        Some((EventView { name, params, body }, close))
    }
}

/// All events of a block from position `j` on, in source order.
pub open spec fn spec_scan_events(b: Seq<char>, j: int) -> Seq<EventView>
    decreases b.len() - j,
{
    if j < 0 || j >= b.len() {
        Seq::empty()
    } else if starts_with_at(b, j, "on "@) {
        match spec_parse_event_at(b, j + 3) {
            None => Seq::empty(),
            Some((ev, nxt)) => seq![ev] + spec_scan_events(b, if j + 3 < nxt <= b.len() {
                nxt
            } else {
                b.len() as int
            }),
        }
    } else {
        spec_scan_events(b, j + 1)
    }
}

/// One entity parsed starting just past an `entity` keyword at `k`: its view
/// and the position the scan continues at. `None` when no `{` follows, which
/// ends the scan.
pub open spec fn spec_parse_entity_at(s: Seq<char>, k: int) -> Option<(EntityView, int)> {
    let p = spec_skip_ws(s, k);
    let ne = spec_scan_name_end(s, p, '{');
    let name = spec_trim(s.subrange(p, ne));
    let ob = spec_scan_to(s, ne, '{');
    if ob >= s.len() {
        None
    } else {
        let close = spec_brace_end(s, ob + 1, 1);
        let block = if ob + 1 <= close - 1 {
            s.subrange(ob + 1, close - 1)
        } else {
            Seq::empty()
        };
        Some(
            (
                EntityView {
                    name,
                    components: spec_components(block),
                    events: spec_scan_events(block, 0),
                },
                close,
            ),
        )
    }
}

/// All entities of `s` from position `i` on, in source order.
pub open spec fn spec_scan_entities(s: Seq<char>, i: int) -> Seq<EntityView>
    decreases s.len() - i,
{
    if i < 0 || i >= s.len() {
        Seq::empty()
    } else if starts_with_at(s, i, "entity"@) {
        match spec_parse_entity_at(s, i + 6) {
            None => Seq::empty(),
            Some((e, nxt)) => seq![e] + spec_scan_entities(s, if i + 6 < nxt <= s.len() {
                nxt
            } else {
                s.len() as int
            }),
        }
    } else {
        spec_scan_entities(s, i + 1)
    }
}

/// What parsing yields on the whole input.
pub open spec fn spec_parse_entities(s: Seq<char>) -> Seq<EntityView> {
    spec_scan_entities(s, 0)
}

fn parse_components(block: &Vec<char>) -> (r: Vec<String>)
    ensures
        r.deep_view() == spec_components(block@),
{
    let ci = match find_sub(block, 0, "components:") {
        None => {
            return Vec::new();
        },
        Some(ci) => ci,
    };
    let op = scan_to(block, ci, '[');
    if op >= block.len() {
        return Vec::new();
    }
    let close = scan_to(block, op + 1, ']');
    if close >= block.len() {
        return Vec::new();
    }
    let list = subvec(block, op + 1, close);
    let pieces = split_vec(&list, ',');
    let mut r: Vec<String> = Vec::new();
    let mut idx: usize = 0;
    proof {
        assert(pieces.deep_view().subrange(0, pieces.deep_view().len() as int) =~= pieces.deep_view());
    }
    while idx < pieces.len()
        invariant
            0 <= idx <= pieces.len(),
            pieces.deep_view() == spec_split(list@, ','),
            pieces.deep_view().len() == pieces.len(),
            spec_clean_pieces(pieces.deep_view()) == r.deep_view() + spec_clean_pieces(
                pieces.deep_view().subrange(idx as int, pieces.len() as int),
            ),
        decreases pieces.len() - idx,
    {
        let ghost rem = pieces.deep_view().subrange(idx as int, pieces.len() as int);
        let t = trim_vec(&pieces[idx]);
        proof {
            assert(pieces.deep_view()[idx as int] == pieces@[idx as int]@);
            assert(rem[0] == pieces.deep_view()[idx as int]);
            assert(rem.drop_first() =~= pieces.deep_view().subrange(idx + 1, pieces.len() as int));
            assert(spec_clean_pieces(rem) == if t@.len() == 0 {
                spec_clean_pieces(rem.drop_first())
            } else {
                seq![t@] + spec_clean_pieces(rem.drop_first())
            });
        }
        if t.len() > 0 {
            let ghost r0 = r.deep_view();
            r.push(chars_to_string(&t));
            proof {
                assert(r.deep_view() =~~= r0.push(t@));
                assert(r.deep_view() + spec_clean_pieces(
                    pieces.deep_view().subrange(idx + 1, pieces.len() as int),
                ) =~~= r0 + (seq![t@] + spec_clean_pieces(
                    pieces.deep_view().subrange(idx + 1, pieces.len() as int),
                )));
            }
        }
        idx = idx + 1;
    }
    proof {
        assert(pieces.deep_view().subrange(idx as int, pieces.len() as int) =~= Seq::<
            Seq<char>,
        >::empty());
        assert(r.deep_view() =~~= spec_clean_pieces(pieces.deep_view()));
    }
    r
}

fn parse_event_at(b: &Vec<char>, j0: usize) -> (r: Option<(Event, usize)>)
    requires
        j0 <= b.len(),
        b.len() < usize::MAX,
    ensures
        r is Some <==> spec_parse_event_at(b@, j0 as int) is Some,
        r is Some ==> {
            let (ev, nxt) = r->Some_0;
            let (sev, snxt) = spec_parse_event_at(b@, j0 as int)->Some_0;
            ev.deep_view() == sev && nxt as int == snxt && j0 < nxt <= b.len()
        },
{
    let p = skip_ws(b, j0);
    let ne = scan_name_end(b, p, '(');
    let name_chars = trim_vec(&subvec(b, p, ne));
    let has_params = ne < b.len() && b[ne] == '(';
    let mut params: Option<String> = None;
    let mut after: usize = ne;
    if has_params {
        let pe = scan_to(b, ne + 1, ')');
        params = Some(chars_to_string(&trim_vec(&subvec(b, ne + 1, pe))));
        after = if pe < b.len() {
            pe + 1
        } else {
            pe
        };
    }
    let ob = scan_to(b, after, '{');
    if ob >= b.len() {
        return None;
    }
    let close = brace_end(b, ob + 1, 1);
    let body_chars = if ob + 1 <= close - 1 {
        trim_vec(&subvec(b, ob + 1, close - 1))
    } else {
        Vec::new()
    };
    let ev = Event {
        name: chars_to_string(&name_chars),
        params,
        body: chars_to_string(&body_chars),
    };
    Some((ev, close))
}

fn scan_events(b: &Vec<char>) -> (r: Vec<Event>)
    requires
        b.len() < usize::MAX,
    ensures
        r.deep_view() == spec_scan_events(b@, 0),
{
    let mut r: Vec<Event> = Vec::new();
    let mut j: usize = 0;
    while j < b.len()
        invariant
            0 <= j <= b.len(),
            b.len() < usize::MAX,
            spec_scan_events(b@, 0) == r.deep_view() + spec_scan_events(b@, j as int),
        decreases b.len() - j,
    {
        if at_match(b, j, "on ") {
            proof {
                reveal_strlit("on ");
            }
            match parse_event_at(b, j + 3) {
                Some((ev, nxt)) => {
                    let ghost r0 = r.deep_view();
                    let ghost oldj = j as int;
                    r.push(ev);
                    j = nxt;
                    proof {
                        assert(r.deep_view() =~~= r0.push(
                            spec_parse_event_at(b@, oldj + 3)->Some_0.0,
                        ));
                        assert(r.deep_view() + spec_scan_events(b@, j as int) =~~= spec_scan_events(
                            b@,
                            0,
                        ));
                    }
                },
                None => {
                    proof {
                        assert(spec_scan_events(b@, j as int) =~= Seq::<EventView>::empty());
                        assert(r.deep_view() =~~= spec_scan_events(b@, 0));
                    }
                    return r;
                },
            }
        } else {
            j = j + 1;
        }
    }
    proof {
        assert(r.deep_view() =~~= spec_scan_events(b@, 0));
    }
    r
}

fn parse_entity_at(v: &Vec<char>, k: usize) -> (r: Option<(Entity, usize)>)
    requires
        k <= v.len(),
        v.len() < usize::MAX,
    ensures
        r is Some <==> spec_parse_entity_at(v@, k as int) is Some,
        r is Some ==> {
            let (e, nxt) = r->Some_0;
            let (se, snxt) = spec_parse_entity_at(v@, k as int)->Some_0;
            e.deep_view() == se && nxt as int == snxt && k < nxt <= v.len()
        },
{
    let p = skip_ws(v, k);
    let ne = scan_name_end(v, p, '{');
    let name_chars = trim_vec(&subvec(v, p, ne));
    let ob = scan_to(v, ne, '{');
    if ob >= v.len() {
        return None;
    }
    let close = brace_end(v, ob + 1, 1);
    let block = if ob + 1 <= close - 1 {
        subvec(v, ob + 1, close - 1)
    } else {
        Vec::new()
    };
    let components = parse_components(&block);
    let events = scan_events(&block);
    let e = Entity { name: chars_to_string(&name_chars), components, events };
    Some((e, close))
}

/// Best-effort parse of every `entity Name { ... }` block of `input`, in
/// source order. Malformed text yields partial or empty results, never an
/// error.
pub fn parse_entities(input: &str) -> (res: Vec<Entity>)
    requires
        input@.len() < usize::MAX,
    ensures
        res.deep_view() == spec_parse_entities(input@),
{
    let v = str_to_chars(input);
    let mut res: Vec<Entity> = Vec::new();
    let mut i: usize = 0;
    while i < v.len()
        invariant
            0 <= i <= v.len(),
            v@ == input@,
            v.len() < usize::MAX,
            spec_parse_entities(input@) == res.deep_view() + spec_scan_entities(v@, i as int),
        decreases v.len() - i,
    {
        if at_match(&v, i, "entity") {
            proof {
                reveal_strlit("entity");
            }
            match parse_entity_at(&v, i + 6) {
                Some((e, nxt)) => {
                    let ghost r0 = res.deep_view();
                    let ghost oldi = i as int;
                    res.push(e);
                    i = nxt;
                    proof {
                        assert(res.deep_view() =~~= r0.push(
                            spec_parse_entity_at(v@, oldi + 6)->Some_0.0,
                        ));
                        assert(res.deep_view() + spec_scan_entities(v@, i as int)
                            =~~= spec_parse_entities(input@));
                    }
                },
                None => {
                    proof {
                        assert(spec_scan_entities(v@, i as int) =~= Seq::<EntityView>::empty());
                        assert(res.deep_view() =~~= spec_parse_entities(input@));
                    }
                    return res;
                },
            }
        } else {
            i = i + 1;
        }
    }
    proof {
        assert(res.deep_view() =~~= spec_parse_entities(input@));
    }
    res
}

/// The component list text of a rendered entity: names joined by `", "`.
pub open spec fn spec_join_comma(cs: Seq<Seq<char>>) -> Seq<char>
    decreases cs.len(),
{
    if cs.len() == 0 {
        Seq::empty()
    } else if cs.len() == 1 {
        cs[0]
    } else {
        cs[0] + ", "@ + spec_join_comma(cs.drop_first())
    }
}

/// The source text of one rendered event handler.
pub open spec fn spec_render_event(ev: EventView) -> Seq<char> {
    let params = match ev.params {
        Some(p) => p,
        None => Seq::empty(),
    };
    "    on "@ + ev.name + "("@ + params + ") { "@ + ev.body + " }\n"@
}

pub open spec fn spec_render_events(evs: Seq<EventView>) -> Seq<char>
    decreases evs.len(),
{
    if evs.len() == 0 {
        Seq::empty()
    } else {
        spec_render_event(evs[0]) + spec_render_events(evs.drop_first())
    }
}

/// The source text of one entity: its component list always written, its
/// events in order.
pub open spec fn spec_render_entity(e: EntityView) -> Seq<char> {
    "entity "@ + e.name + " {\n    components: ["@ + spec_join_comma(e.components) + "];\n"@
        + spec_render_events(e.events) + "}\n\n"@
}

/// The source text of a whole corpus file.
pub open spec fn spec_render_corpus(es: Seq<EntityView>) -> Seq<char>
    decreases es.len(),
{
    if es.len() == 0 {
        Seq::empty()
    } else {
        spec_render_entity(es[0]) + spec_render_corpus(es.drop_first())
    }
}

fn push_string_chars(out: &mut Vec<char>, s: &String)
    ensures
        final(out)@ == old(out)@ + s@,
{
    crate::ast::push_str_chars(out, s.as_str())
}

fn push_join_comma(out: &mut Vec<char>, cs: &Vec<String>)
    ensures
        final(out)@ == old(out)@ + spec_join_comma(cs.deep_view()),
{
    if cs.len() == 0 {
        proof {
            assert(out@ =~= old(out)@ + spec_join_comma(cs.deep_view()));
        }
        return ;
    }
    let ghost all = cs.deep_view();
    proof {
        assert(all[0] == cs@[0]@);
    }
    push_string_chars(out, &cs[0]);
    let mut i: usize = 1;
    proof {
        lemma_join_comma_tail(all);
        assert(all.drop_first() =~= all.subrange(1, all.len() as int));
    }
    while i < cs.len()
        invariant
            1 <= i <= cs.len(),
            all == cs.deep_view(),
            all.len() == cs@.len(),
            out@ + spec_join_tail(all.subrange(i as int, all.len() as int)) == old(out)@
                + spec_join_comma(all),
        decreases cs.len() - i,
    {
        let ghost rem = all.subrange(i as int, all.len() as int);
        proof {
            assert(rem[0] == all[i as int]);
            assert(all[i as int] == cs@[i as int]@);
            assert(rem.drop_first() =~= all.subrange(i + 1, all.len() as int));
        }
        crate::ast::push_str_chars(out, ", ");
        push_string_chars(out, &cs[i]);
        proof {
            assert(out@ + spec_join_tail(all.subrange(i + 1, all.len() as int)) =~= old(out)@
                + spec_join_comma(all));
        }
        i = i + 1;
    }
    proof {
        assert(all.subrange(i as int, all.len() as int) =~= Seq::<Seq<char>>::empty());
        assert(out@ =~= old(out)@ + spec_join_comma(all));
    }
}

/// What remains of a comma join after its first element.
pub open spec fn spec_join_tail(cs: Seq<Seq<char>>) -> Seq<char>
    decreases cs.len(),
{
    if cs.len() == 0 {
        Seq::empty()
    } else {
        ", "@ + cs[0] + spec_join_tail(cs.drop_first())
    }
}

pub proof fn lemma_join_comma_tail(cs: Seq<Seq<char>>)
    requires
        cs.len() >= 1,
    ensures
        spec_join_comma(cs) == cs[0] + spec_join_tail(cs.drop_first()),
    decreases cs.len(),
{
    if cs.len() == 1 {
        assert(cs.drop_first() =~= Seq::<Seq<char>>::empty());
        assert(spec_join_comma(cs) =~= cs[0] + spec_join_tail(cs.drop_first()));
    } else {
        lemma_join_comma_tail(cs.drop_first());
        assert(spec_join_comma(cs) =~= cs[0] + spec_join_tail(cs.drop_first()));
    }
}

/// Renders one entity back to source text: the `entity` block with its
/// component list and its handlers in order.
pub fn render_entity(e: &Entity) -> (r: String)
    ensures
        r@ == spec_render_entity(e.deep_view()),
{
    let mut out: Vec<char> = Vec::new();
    crate::ast::push_str_chars(&mut out, "entity ");
    push_string_chars(&mut out, &e.name);
    crate::ast::push_str_chars(&mut out, " {\n    components: [");
    push_join_comma(&mut out, &e.components);
    crate::ast::push_str_chars(&mut out, "];\n");
    let ghost evs = e.events.deep_view();
    let mut i: usize = 0;
    let ghost mid = out@;
    proof {
        assert(evs.subrange(0, evs.len() as int) =~= evs);
        assert(out@ + spec_render_events(evs) =~= mid + spec_render_events(evs));
    }
    while i < e.events.len()
        invariant
            0 <= i <= e.events.len(),
            evs == e.events.deep_view(),
            evs.len() == e.events@.len(),
            out@ + spec_render_events(evs.subrange(i as int, evs.len() as int)) == mid
                + spec_render_events(evs),
        decreases e.events.len() - i,
    {
        let ghost rem = evs.subrange(i as int, evs.len() as int);
        proof {
            assert(rem[0] == evs[i as int]);
            assert(evs[i as int] == e.events@[i as int].deep_view());
            assert(rem.drop_first() =~= evs.subrange(i + 1, evs.len() as int));
        }
        crate::ast::push_str_chars(&mut out, "    on ");
        push_string_chars(&mut out, &e.events[i].name);
        crate::ast::push_str_chars(&mut out, "(");
        match &e.events[i].params {
            Some(p) => {
                push_string_chars(&mut out, p);
            },
            None => {},
        }
        crate::ast::push_str_chars(&mut out, ") { ");
        push_string_chars(&mut out, &e.events[i].body);
        crate::ast::push_str_chars(&mut out, " }\n");
        proof {
            assert(out@ + spec_render_events(evs.subrange(i + 1, evs.len() as int)) =~= mid
                + spec_render_events(evs));
        }
        i = i + 1;
    }
    crate::ast::push_str_chars(&mut out, "}\n\n");
    proof {
        assert(evs.subrange(i as int, evs.len() as int) =~= Seq::<EventView>::empty());
        assert(out@ =~= spec_render_entity(e.deep_view()));
    }
    chars_to_string(&out)
}

/// Renders a sequence of entities to one corpus file's text.
pub fn render_corpus(es: &Vec<Entity>) -> (r: String)
    ensures
        r@ == spec_render_corpus(es.deep_view()),
{
    let ghost all = es.deep_view();
    let mut out: Vec<char> = Vec::new();
    let mut i: usize = 0;
    proof {
        assert(all.subrange(0, all.len() as int) =~= all);
        assert(out@ + spec_render_corpus(all) =~= spec_render_corpus(all));
    }
    while i < es.len()
        invariant
            0 <= i <= es.len(),
            all == es.deep_view(),
            all.len() == es@.len(),
            out@ + spec_render_corpus(all.subrange(i as int, all.len() as int))
                == spec_render_corpus(all),
        decreases es.len() - i,
    {
        let ghost rem = all.subrange(i as int, all.len() as int);
        proof {
            assert(rem[0] == all[i as int]);
            assert(all[i as int] == es@[i as int].deep_view());
            assert(rem.drop_first() =~= all.subrange(i + 1, all.len() as int));
        }
        let piece = render_entity(&es[i]);
        crate::ast::push_str_chars(&mut out, piece.as_str());
        proof {
            assert(out@ + spec_render_corpus(all.subrange(i + 1, all.len() as int))
                =~= spec_render_corpus(all));
        }
        i = i + 1;
    }
    proof {
        assert(all.subrange(i as int, all.len() as int) =~= Seq::<EntityView>::empty());
        assert(out@ =~= spec_render_corpus(all));
    }
    chars_to_string(&out)
}

/// `s` trimmed, with one trailing `;` removed when present.
pub open spec fn spec_trim_semicolon(s: Seq<char>) -> Seq<char> {
    let t = spec_trim(s);
    if t.len() > 0 && t[t.len() - 1] == ';' {
        t.drop_last()
    } else {
        t
    }
}

/// `s` trimmed, with one trailing `;` removed when present.
pub fn trim_semicolon(s: &str) -> (r: String)
    ensures
        r@ == spec_trim_semicolon(s@),
{
    let v = str_to_chars(s);
    let mut t = trim_vec(&v);
    if t.len() > 0 {
        let lastc = t[t.len() - 1];
        if lastc == ';' {
            let ghost t0 = t@;
            t.pop();
            proof {
                assert(t@ =~= t0.drop_last());
            }
        }
    }
    chars_to_string(&t)
}

} // verus!
