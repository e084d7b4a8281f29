//! Proved laws about re-parsing rendered corpora: brace-balanced segments
//! are captured whole by the brace scan, and a rendered corpus parses back
//! into the same number of entities with the same names and event names.

use vstd::prelude::*;

use crate::meta_lang::{
    spec_parse_entities, spec_parse_entity_at, spec_parse_event_at, spec_render_corpus,
    spec_render_entity,
    spec_render_event, spec_render_events, spec_scan_entities, spec_scan_events, EntityView,
    EventView,
};
use crate::text::{
    is_space_char, spec_brace_end, spec_scan_name_end, spec_scan_to, spec_skip_ws,
    spec_skip_ws_end, spec_trim, starts_with_at,
};

verus! {

/// The brace-nesting change one character causes.
pub open spec fn brace_step(level: int, c: char) -> int {
    if c == '{' {
        level + 1
    } else if c == '}' {
        level - 1
    } else {
        level
    }
}

/// The nesting level after scanning all of `b` from `level`.
pub open spec fn level_after(b: Seq<char>, level: int) -> int
    decreases b.len(),
{
    if b.len() == 0 {
        level
    } else {
        level_after(b.drop_first(), brace_step(level, b[0]))
    }
}

/// Whether scanning `b` from `level` never brings the level below one.
pub open spec fn stays_open(b: Seq<char>, level: int) -> bool
    decreases b.len(),
{
    if b.len() == 0 {
        true
    } else {
        brace_step(level, b[0]) >= 1 && stays_open(b.drop_first(), brace_step(level, b[0]))
    }
}

/// A brace-balanced segment: scanning it from inside one open brace never
/// closes that brace and ends at the same depth.
pub open spec fn balanced(b: Seq<char>) -> bool {
    stays_open(b, 1) && level_after(b, 1) == 1
}

pub proof fn lemma_level_concat(a: Seq<char>, b: Seq<char>, l: int)
    ensures
        level_after(a + b, l) == level_after(b, level_after(a, l)),
        stays_open(a + b, l) == (stays_open(a, l) && stays_open(b, level_after(a, l))),
    decreases a.len(),
{
    if a.len() == 0 {
        assert(a + b =~= b);
    } else {
        assert((a + b)[0] == a[0]);
        assert((a + b).drop_first() =~= a.drop_first() + b);
        lemma_level_concat(a.drop_first(), b, brace_step(l, a[0]));
    }
}

/// A segment without braces keeps the level and stays open at any positive
/// level.
pub proof fn lemma_level_bracefree(s: Seq<char>, l: int)
    requires
        forall|k: int| 0 <= k < s.len() ==> s[k] != '{' && s[k] != '}',
    ensures
        level_after(s, l) == l,
        l >= 1 ==> stays_open(s, l),
    decreases s.len(),
{
    if s.len() > 0 {
        lemma_level_bracefree(s.drop_first(), l);
    }
}

/// Raising the starting level keeps a segment open and shifts its final
/// level by the same amount.
pub proof fn lemma_level_shift(b: Seq<char>, l: int, m: int)
    requires
        m >= l,
    ensures
        level_after(b, m) == level_after(b, l) + (m - l),
        stays_open(b, l) ==> stays_open(b, m),
    decreases b.len(),
{
    if b.len() > 0 {
        lemma_level_shift(b.drop_first(), brace_step(l, b[0]), brace_step(m, b[0]));
    }
}

/// A brace-balanced segment is captured whole: the brace scan that starts
/// just inside an open brace, at the front of the segment, stops exactly at
/// the closing brace that follows the segment, however deeply the segment
/// nests its own braces.
pub proof fn lemma_balanced_segment_captured(s: Seq<char>, p: int, seg: Seq<char>, level: int)
    requires
        level >= 1,
        stays_open(seg, level),
        level_after(seg, level) == 1,
        0 <= p,
        p + seg.len() < s.len(),
        s.subrange(p, p + seg.len()) == seg,
        s[p + seg.len()] == '}',
    ensures
        spec_brace_end(s, p, level) == p + seg.len() + 1,
    decreases seg.len(),
{
    if seg.len() == 0 {
        assert(level == 1);
        assert(spec_brace_end(s, p, 1) == spec_brace_end(s, p + 1, 0));
    } else {
        assert(s[p] == seg[0]) by {
            assert(s.subrange(p, p + seg.len())[0] == s[p]);
        }
        let l2 = brace_step(level, seg[0]);
        assert(seg.drop_first() =~= s.subrange(p + 1, p + 1 + seg.drop_first().len()));
        lemma_balanced_segment_captured(s, p + 1, seg.drop_first(), l2);
    }
}

/// The whole-scan form: a `{`, a balanced segment, then the matching `}`.
pub proof fn lemma_brace_scan_balanced(s: Seq<char>, p: int, seg: Seq<char>)
    requires
        balanced(seg),
        0 <= p,
        p + seg.len() < s.len(),
        s.subrange(p, p + seg.len()) == seg,
        s[p + seg.len()] == '}',
    ensures
        spec_brace_end(s, p, 1) == p + seg.len() + 1,
{
    lemma_balanced_segment_captured(s, p, seg, 1);
}

/// An event body with balanced braces is captured whole: wherever the head
/// scans of `spec_parse_event_at` land on the opening brace, if the text
/// between that brace and the `}` that follows the segment is
/// brace-balanced, the parsed body is exactly that segment, trimmed —
/// nested blocks with internal braces included, never truncated at the
/// first `}`.
pub proof fn lemma_event_body_captured(b: Seq<char>, j0: int, seg: Seq<char>)
    requires
        0 <= j0 <= b.len(),
        balanced(seg),
        ({
            let p = spec_skip_ws(b, j0);
            let ne = spec_scan_name_end(b, p, '(');
            let after = if ne < b.len() && b[ne] == '(' {
                let pe = spec_scan_to(b, ne + 1, ')');
                if pe < b.len() {
                    pe + 1
                } else {
                    pe
                }
            } else {
                ne
            };
            let ob = spec_scan_to(b, after, '{');
            &&& 0 <= ob
            &&& ob + 1 + seg.len() < b.len()
            &&& b.subrange(ob + 1, ob + 1 + seg.len()) == seg
            &&& b[ob + 1 + seg.len()] == '}'
        }),
    ensures
        spec_parse_event_at(b, j0) is Some,
        spec_parse_event_at(b, j0)->Some_0.0.body == spec_trim(seg),
{
    let p = spec_skip_ws(b, j0);
    let ne = spec_scan_name_end(b, p, '(');
    let after = if ne < b.len() && b[ne] == '(' {
        let pe = spec_scan_to(b, ne + 1, ')');
        if pe < b.len() {
            pe + 1
        } else {
            pe
        }
    } else {
        ne
    };
    let ob = spec_scan_to(b, after, '{');
    lemma_brace_scan_balanced(b, ob + 1, seg);
    assert(spec_brace_end(b, ob + 1, 1) == ob + seg.len() + 2);
}

/// A scan for `c` runs straight through a segment free of `c` and stops at
/// the first occurrence.
pub proof fn lemma_scan_to_through(s: Seq<char>, a: int, b: int, c: char)
    requires
        0 <= a <= b < s.len(),
        forall|k: int| a <= k < b ==> s[k] != c,
        s[b] == c,
    ensures
        spec_scan_to(s, a, c) == b,
    decreases b - a,
{
    if a < b {
        lemma_scan_to_through(s, a + 1, b, c);
    }
}

/// A name scan runs through a segment free of whitespace and of the
/// terminator and stops at the first of either.
pub proof fn lemma_scan_name_end_through(s: Seq<char>, a: int, b: int, extra: char)
    requires
        0 <= a <= b < s.len(),
        forall|k: int| a <= k < b ==> !is_space_char(s[k]) && s[k] != extra,
        is_space_char(s[b]) || s[b] == extra,
    ensures
        spec_scan_name_end(s, a, extra) == b,
    decreases b - a,
{
    if a < b {
        lemma_scan_name_end_through(s, a + 1, b, extra);
    }
}

/// A whitespace skip runs through spaces and stops at the first
/// non-whitespace character.
pub proof fn lemma_skip_ws_through(s: Seq<char>, a: int, b: int)
    requires
        0 <= a <= b < s.len(),
        forall|k: int| a <= k < b ==> is_space_char(s[k]),
        !is_space_char(s[b]),
    ensures
        spec_skip_ws(s, a) == b,
    decreases b - a,
{
    if a < b {
        lemma_skip_ws_through(s, a + 1, b);
    }
}

/// A sequence without leading or trailing whitespace trims to itself.
pub proof fn lemma_trim_id(s: Seq<char>)
    requires
        s.len() > 0 ==> !is_space_char(s[0]) && !is_space_char(s[s.len() - 1]),
    ensures
        spec_trim(s) == s,
{
    if s.len() == 0 {
        assert(spec_trim(s) =~= s);
    } else {
        assert(spec_skip_ws(s, 0) == 0);
        assert(spec_skip_ws_end(s, s.len() as int) == s.len());
        assert(spec_trim(s) =~= s);
    }
}

/// An event whose rendered form scans back faithfully: a name free of
/// whitespace, parens and braces; parameters free of the closing paren and
/// of braces; a body that is trimmed and brace-balanced.
pub open spec fn wf_event(ev: EventView) -> bool {
    &&& forall|k: int|
        0 <= k < ev.name.len() ==> !is_space_char(ev.name[k]) && ev.name[k] != '(' && ev.name[k]
            != '{' && ev.name[k] != '}'
    &&& match ev.params {
        Some(p) => forall|k: int| 0 <= k < p.len() ==> p[k] != ')' && p[k] != '{' && p[k] != '}',
        None => true,
    }
    &&& balanced(ev.body)
    &&& spec_trim(ev.body) == ev.body
}

/// Same handler names and bodies, in the same order.
pub open spec fn events_match(a: Seq<EventView>, b: Seq<EventView>) -> bool {
    a.len() == b.len() && forall|i: int|
        0 <= i < a.len() ==> (#[trigger] a[i]).name == b[i].name && a[i].body == b[i].body
}

/// The event scan walks straight over a stretch with no `on ` keyword.
pub proof fn lemma_scan_events_skip(b: Seq<char>, j: int, j2: int)
    requires
        0 <= j <= j2 <= b.len(),
        forall|k: int| j <= k < j2 ==> !starts_with_at(b, k, "on "@),
    ensures
        spec_scan_events(b, j) == spec_scan_events(b, j2),
    decreases j2 - j,
{
    if j < j2 {
        lemma_scan_events_skip(b, j + 1, j2);
    }
}

/// Character-level layout of one rendered event at `j` in `b`, by its
/// pieces.
#[verifier::rlimit(100)]
#[verifier::spinoff_prover]
proof fn lemma_event_chars(b: Seq<char>, j: int, name: Seq<char>, params: Seq<char>, body: Seq<char>)
    requires
        0 <= j,
        j + name.len() + params.len() + body.len() + 15 <= b.len(),
        b.subrange(j, j + name.len() + params.len() + body.len() + 15) == "    on "@ + name + "("@
            + params + ") { "@ + body + " }\n"@,
    ensures
        b[j] == ' ',
        b[j + 1] == ' ',
        b[j + 2] == ' ',
        b[j + 3] == ' ',
        b[j + 4] == 'o',
        b[j + 5] == 'n',
        b[j + 6] == ' ',
        b.subrange(j + 7, j + 7 + name.len()) == name,
        b[j + 7 + name.len()] == '(',
        b.subrange(j + 8 + name.len(), j + 8 + name.len() + params.len()) == params,
        b[j + 8 + name.len() + params.len()] == ')',
        b[j + 9 + name.len() + params.len()] == ' ',
        b[j + 10 + name.len() + params.len()] == '{',
        b[j + 11 + name.len() + params.len()] == ' ',
        b.subrange(
            j + 12 + name.len() + params.len(),
            j + 12 + name.len() + params.len() + body.len(),
        ) == body,
        b[j + 12 + name.len() + params.len() + body.len()] == ' ',
        b[j + 13 + name.len() + params.len() + body.len()] == '}',
        b[j + 14 + name.len() + params.len() + body.len()] == '\n',
{
    reveal_strlit("    on ");
    reveal_strlit("(");
    reveal_strlit(") { ");
    reveal_strlit(" }\n");
    let nl = name.len() as int;
    let pl = params.len() as int;
    let bl = body.len() as int;
    let r0 = "    on "@ + name + "("@ + params + ") { "@ + body + " }\n"@;
    assert(r0.len() == nl + pl + bl + 15);
    assert forall|x: int| 0 <= x < r0.len() implies b[j + x] == r0[x] by {
        assert(b.subrange(j, j + r0.len() as int)[x] == b[j + x]);
    }
    assert("    on "@[0] == ' ' && "    on "@[1] == ' ' && "    on "@[2] == ' ' && "    on "@[3]
        == ' ' && "    on "@[4] == 'o' && "    on "@[5] == 'n' && "    on "@[6] == ' ');
    assert(b[j + 0] == r0[0] && b[j + 1] == r0[1] && b[j + 2] == r0[2] && b[j + 3] == r0[3]);
    assert(b[j + 4] == r0[4] && b[j + 5] == r0[5] && b[j + 6] == r0[6]);
    assert(b.subrange(j + 7, j + 7 + nl) =~= name) by {
        assert forall|k: int| 0 <= k < nl implies b.subrange(j + 7, j + 7 + nl)[k] == name[k] by {
            assert(b.subrange(j + 7, j + 7 + nl)[k] == b[j + (7 + k)]);
            assert(b[j + (7 + k)] == r0[7 + k]);
            assert(r0[7 + k] == name[k]);
        }
    }
    assert(b[j + (7 + nl)] == r0[7 + nl] && r0[7 + nl] == '(');
    assert(b.subrange(j + 8 + nl, j + 8 + nl + pl) =~= params) by {
        assert forall|k: int| 0 <= k < pl implies b.subrange(j + 8 + nl, j + 8 + nl + pl)[k]
            == params[k] by {
            assert(b.subrange(j + 8 + nl, j + 8 + nl + pl)[k] == b[j + (8 + nl + k)]);
            assert(b[j + (8 + nl + k)] == r0[8 + nl + k]);
            assert(r0[8 + nl + k] == params[k]);
        }
    }
    assert(b[j + (8 + nl + pl)] == r0[8 + nl + pl] && r0[8 + nl + pl] == ')');
    assert(b[j + (9 + nl + pl)] == r0[9 + nl + pl] && r0[9 + nl + pl] == ' ');
    assert(b[j + (10 + nl + pl)] == r0[10 + nl + pl] && r0[10 + nl + pl] == '{');
    assert(b[j + (11 + nl + pl)] == r0[11 + nl + pl] && r0[11 + nl + pl] == ' ');
    assert(b.subrange(j + 12 + nl + pl, j + 12 + nl + pl + bl) =~= body) by {
        assert forall|k: int| 0 <= k < bl implies b.subrange(
            j + 12 + nl + pl,
            j + 12 + nl + pl + bl,
        )[k] == body[k] by {
            assert(b.subrange(j + 12 + nl + pl, j + 12 + nl + pl + bl)[k] == b[j + (12 + nl + pl
                + k)]);
            assert(b[j + (12 + nl + pl + k)] == r0[12 + nl + pl + k]);
            assert(r0[12 + nl + pl + k] == body[k]);
        }
    }
    assert(b[j + (12 + nl + pl + bl)] == r0[12 + nl + pl + bl] && r0[12 + nl + pl + bl] == ' ');
    assert(b[j + (13 + nl + pl + bl)] == r0[13 + nl + pl + bl] && r0[13 + nl + pl + bl] == '}');
    assert(b[j + (14 + nl + pl + bl)] == r0[14 + nl + pl + bl] && r0[14 + nl + pl + bl] == '\n');
}

/// One rendered event, sitting at `j` in `b`, parses back to its own name
/// and body, with the scan continuing at its final newline.
#[verifier::rlimit(100)]
#[verifier::spinoff_prover]
proof fn lemma_rendered_event_parses(b: Seq<char>, j: int, e0: EventView)
    requires
        wf_event(e0),
        0 <= j,
        j + spec_render_event(e0).len() <= b.len(),
        b.subrange(j, j + spec_render_event(e0).len() as int) == spec_render_event(e0),
    ensures
        ({
            let r0 = spec_render_event(e0);
            &&& r0.len() >= 15
            &&& (forall|k: int| j <= k < j + 4 ==> !starts_with_at(b, k, "on "@))
            &&& starts_with_at(b, j + 4, "on "@)
            &&& spec_parse_event_at(b, (j + 4) + 3) is Some
            &&& spec_parse_event_at(b, (j + 4) + 3)->Some_0.0.name == e0.name
            &&& spec_parse_event_at(b, (j + 4) + 3)->Some_0.0.body == e0.body
            &&& spec_parse_event_at(b, (j + 4) + 3)->Some_0.1 == j + r0.len() - 1
            &&& b[j + r0.len() - 1] == '\n'
        }),
{
    reveal_strlit("on ");
    let r0 = spec_render_event(e0);
    let name = e0.name;
    let params = match e0.params {
        Some(p) => p,
        None => Seq::<char>::empty(),
    };
    let body = e0.body;
    let nl = name.len() as int;
    let pl = params.len() as int;
    let bl = body.len() as int;
    assert(r0 == "    on "@ + name + "("@ + params + ") { "@ + body + " }\n"@);
    assert(r0.len() == nl + pl + bl + 15) by {
        reveal_strlit("    on ");
        reveal_strlit("(");
        reveal_strlit(") { ");
        reveal_strlit(" }\n");
    }
    lemma_event_chars(b, j, name, params, body);
    assert("on "@.len() == 3 && "on "@[0] == 'o' && "on "@[1] == 'n' && "on "@[2] == ' ');
    // the four leading spaces hold no `on ` keyword
    assert forall|k: int| j <= k < j + 4 implies !starts_with_at(b, k, "on "@) by {
        if starts_with_at(b, k, "on "@) {
            assert(b.subrange(k, k + 3)[0] == b[k]);
            assert(b[k] == 'o');
        }
    }
    // the keyword itself
    assert(starts_with_at(b, j + 4, "on "@)) by {
        assert(b.subrange(j + 4, j + 7) =~= "on "@);
    }
    // the scans walk the rendered pieces
    let q = j + 7;
    let nm = b.subrange(j + 7, j + 7 + nl);
    assert(!is_space_char(b[q])) by {
        if nl > 0 {
            assert(nm[0] == b[j + 7]);
        }
    }
    assert(spec_skip_ws(b, q) == q);
    let ne = q + nl;
    assert(spec_scan_name_end(b, q, '(') == ne) by {
        assert forall|k: int| q <= k < ne implies !is_space_char(b[k]) && b[k] != '(' by {
            assert(nm[k - q] == b[k]);
        }
        lemma_scan_name_end_through(b, q, ne, '(');
    }
    lemma_trim_id(name);
    let pe = ne + 1 + pl;
    let pm = b.subrange(j + 8 + nl, j + 8 + nl + pl);
    assert(spec_scan_to(b, ne + 1, ')') == pe) by {
        assert forall|k: int| ne + 1 <= k < pe implies b[k] != ')' by {
            assert(pm[k - ne - 1] == b[k]);
        }
        lemma_scan_to_through(b, ne + 1, pe, ')');
    }
    let ob = pe + 2;
    assert(spec_scan_to(b, pe + 1, '{') == ob) by {
        lemma_scan_to_through(b, pe + 1, ob, '{');
    }
    // the brace scan captures the padded body whole
    let bm = b.subrange(j + 12 + nl + pl, j + 12 + nl + pl + bl);
    let seg = seq![' '] + body + seq![' '];
    assert(b.subrange(ob + 1, ob + 1 + seg.len()) =~= seg) by {
        assert forall|k: int| 0 <= k < bl implies b[ob + 2 + k] == body[k] by {
            assert(bm[k] == b[j + 12 + nl + pl + k]);
            assert(ob + 2 + k == j + 12 + nl + pl + k);
        }
        assert(b[j + 11 + nl + pl] == ' ');
        assert(b[j + 12 + nl + pl + bl] == ' ');
    }
    assert(stays_open(seg, 1) && level_after(seg, 1) == 1) by {
        let segr = body + seq![' '];
        assert(seg =~= seq![' '] + segr);
        lemma_level_bracefree(seq![' '], 1);
        lemma_level_concat(seq![' '], segr, 1);
        lemma_level_concat(body, seq![' '], 1);
        lemma_level_bracefree(seq![' '], level_after(body, 1));
    }
    assert(b[ob + 1 + seg.len()] == '}');
    lemma_brace_scan_balanced(b, ob + 1, seg);
    let close = ob + 1 + seg.len() + 1;
    assert(close == j + r0.len() - 1);
    assert(b.subrange(ob + 1, close - 1) =~= seg);
    lemma_trim_padded(body);
}

/// Parsing a rendered event sequence recovers every handler's name and body,
/// in order: rendering changes the layout, never the structure.
#[verifier::rlimit(100)]
#[verifier::spinoff_prover]
pub proof fn lemma_scan_rendered_events(b: Seq<char>, j: int, evs: Seq<EventView>)
    requires
        0 <= j <= b.len(),
        b.subrange(j, b.len() as int) == spec_render_events(evs),
        forall|i: int| 0 <= i < evs.len() ==> wf_event(#[trigger] evs[i]),
    ensures
        events_match(spec_scan_events(b, j), evs),
    decreases evs.len(),
{
    reveal_strlit("on ");
    let t = spec_render_events(evs);
    if evs.len() == 0 {
        assert(t.len() == 0);
        assert(j == b.len());
        assert(events_match(spec_scan_events(b, j), evs));
    } else {
        let e0 = evs[0];
        assert(wf_event(e0));
        let r0 = spec_render_event(e0);
        let rest = spec_render_events(evs.drop_first());
        assert(t == r0 + rest);
        assert(j + r0.len() <= b.len()) by {
            assert(t.len() == b.len() - j);
        }
        assert(b.subrange(j, j + r0.len() as int) =~= r0) by {
            assert forall|x: int| 0 <= x < r0.len() implies b[j + x] == r0[x] by {
                assert(b.subrange(j, b.len() as int)[x] == b[j + x]);
                assert(t[x] == r0[x]);
            }
        }
        lemma_rendered_event_parses(b, j, e0);
        lemma_scan_events_skip(b, j, j + 4);
        let close = j + r0.len() - 1;
        let pr = spec_parse_event_at(b, (j + 4) + 3)->Some_0;
        let parsed = spec_scan_events(b, j);
        assert(parsed == seq![pr.0] + spec_scan_events(b, close));
        assert forall|k: int| close <= k < close + 1 implies !starts_with_at(b, k, "on "@) by {
            if starts_with_at(b, k, "on "@) {
                assert(b.subrange(k, k + 3)[0] == b[k]);
                assert(b[k] == 'o');
                assert("on "@[0] == 'o');
            }
        }
        lemma_scan_events_skip(b, close, close + 1);
        assert(b.subrange(close + 1, b.len() as int) =~= rest) by {
            assert forall|k: int| 0 <= k < rest.len() implies b[close + 1 + k] == rest[k] by {
                let x = r0.len() + k;
                assert(b.subrange(j, b.len() as int)[x] == b[j + x]);
                assert(t[x] == rest[x - r0.len()]);
            }
        }
        assert(forall|i: int|
            0 <= i < evs.drop_first().len() ==> wf_event(#[trigger] evs.drop_first()[i]));
        lemma_scan_rendered_events(b, close + 1, evs.drop_first());
        let tail = spec_scan_events(b, close + 1);
        assert(events_match(tail, evs.drop_first()));
        assert forall|i: int| 0 <= i < parsed.len() implies (#[trigger] parsed[i]).name
            == evs[i].name && parsed[i].body == evs[i].body by {
            if i > 0 {
                assert(parsed[i] == tail[i - 1]);
                assert(evs[i] == evs.drop_first()[i - 1]);
            }
        }
        assert(parsed.len() == evs.len());
    }
}

/// An entity whose rendered form parses back faithfully: a nonempty name
/// free of whitespace and braces, a component list free of braces and of
/// the `on ` keyword, and well-formed events.
pub open spec fn wf_entity(e: EntityView) -> bool {
    &&& e.name.len() > 0
    &&& forall|k: int|
        0 <= k < e.name.len() ==> !is_space_char(e.name[k]) && e.name[k] != '{' && e.name[k] != '}'
    &&& ({
        let jn = crate::meta_lang::spec_join_comma(e.components);
        &&& (forall|k: int| 0 <= k < jn.len() ==> jn[k] != '{' && jn[k] != '}')
        &&& (forall|k: int|
            0 <= k && k + 3 <= jn.len() ==> !(#[trigger] jn[k] == 'o' && jn[k + 1] == 'n' && jn[k
                + 2] == ' '))
    })
    &&& forall|i: int| 0 <= i < e.events.len() ==> wf_event(#[trigger] e.events[i])
}

/// Same entity names and matching events, in the same order.
pub open spec fn entities_match(a: Seq<EntityView>, b: Seq<EntityView>) -> bool {
    a.len() == b.len() && forall|i: int|
        0 <= i < a.len() ==> (#[trigger] a[i]).name == b[i].name && events_match(
            a[i].events,
            b[i].events,
        )
}

/// One rendered event is brace-balanced.
#[verifier::rlimit(100)]
#[verifier::spinoff_prover]
proof fn lemma_render_event_balanced(e0: EventView)
    requires
        wf_event(e0),
    ensures
        balanced(spec_render_event(e0)),
{
    reveal_strlit("    on ");
    reveal_strlit("(");
    reveal_strlit(") { ");
    reveal_strlit(" }\n");
    reveal_strlit(") ");
    let name = e0.name;
    let params = match e0.params {
        Some(p) => p,
        None => Seq::<char>::empty(),
    };
    let body = e0.body;
    let r0 = spec_render_event(e0);
    // the head piece up to the opening brace is brace-free
    let head = "    on "@ + name + "("@ + params + ") "@;
    let mid = seq!['{'] + (seq![' '] + body + seq![' ']) + seq!['}'];
    let tail = seq!['\n'];
    assert(r0 =~= head + (mid + tail));
    assert(forall|k: int| 0 <= k < head.len() ==> head[k] != '{' && head[k] != '}') by {
        assert(forall|k: int| 0 <= k < name.len() ==> name[k] != '{' && name[k] != '}');
        assert(forall|k: int| 0 <= k < params.len() ==> params[k] != '{' && params[k] != '}');
        assert forall|k: int| 0 <= k < head.len() implies head[k] != '{' && head[k] != '}' by {
            if 7 <= k < 7 + name.len() {
                assert(head[k] == name[k - 7]);
            } else if 8 + name.len() <= k < 8 + name.len() + params.len() {
                assert(head[k] == params[k - 8 - name.len()]);
            }
        }
    }
    lemma_level_bracefree(head, 1);
    let seg = seq![' '] + body + seq![' '];
    assert(stays_open(seg, 2) && level_after(seg, 2) == 2) by {
        let segr = body + seq![' '];
        assert(seg =~= seq![' '] + segr);
        lemma_level_bracefree(seq![' '], 2);
        lemma_level_concat(seq![' '], segr, 2);
        lemma_level_shift(body, 1, 2);
        lemma_level_concat(body, seq![' '], 2);
        lemma_level_bracefree(seq![' '], level_after(body, 2));
    }
    assert(stays_open(mid, 1) && level_after(mid, 1) == 1) by {
        assert(mid =~= seq!['{'] + (seg + seq!['}']));
        assert(seq!['{'].drop_first() =~= Seq::<char>::empty());
        assert(seq!['}'].drop_first() =~= Seq::<char>::empty());
        assert(level_after(Seq::<char>::empty(), 2) == 2 && stays_open(Seq::<char>::empty(), 2));
        assert(level_after(Seq::<char>::empty(), 1) == 1 && stays_open(Seq::<char>::empty(), 1));
        assert(level_after(seq!['{'], 1) == 2 && stays_open(seq!['{'], 1));
        assert(level_after(seq!['}'], 2) == 1 && stays_open(seq!['}'], 2));
        lemma_level_concat(seq!['{'], seg + seq!['}'], 1);
        lemma_level_concat(seg, seq!['}'], 2);
    }
    assert(stays_open(mid + tail, 1) && level_after(mid + tail, 1) == 1) by {
        lemma_level_concat(mid, tail, 1);
        lemma_level_bracefree(tail, 1);
    }
    lemma_level_concat(head, mid + tail, 1);
}

/// A rendered event sequence is brace-balanced.
proof fn lemma_render_events_balanced(evs: Seq<EventView>)
    requires
        forall|i: int| 0 <= i < evs.len() ==> wf_event(#[trigger] evs[i]),
    ensures
        balanced(spec_render_events(evs)),
    decreases evs.len(),
{
    if evs.len() == 0 {
        assert(balanced(spec_render_events(evs)));
    } else {
        let r0 = spec_render_event(evs[0]);
        let rest = spec_render_events(evs.drop_first());
        lemma_render_event_balanced(evs[0]);
        lemma_render_events_balanced(evs.drop_first());
        assert(spec_render_events(evs) == r0 + rest);
        lemma_level_concat(r0, rest, 1);
    }
}

/// The entity scan walks straight over a stretch with no `entity` keyword.
proof fn lemma_scan_entities_skip(s: Seq<char>, i: int, i2: int)
    requires
        0 <= i <= i2 <= s.len(),
        forall|k: int| i <= k < i2 ==> !starts_with_at(s, k, "entity"@),
    ensures
        spec_scan_entities(s, i) == spec_scan_entities(s, i2),
    decreases i2 - i,
{
    if i < i2 {
        lemma_scan_entities_skip(s, i + 1, i2);
    }
}

/// One rendered entity at `i` in `s` parses back to its own name and
/// events, the scan continuing past its closing brace.
#[verifier::rlimit(100)]
#[verifier::spinoff_prover]
proof fn lemma_rendered_entity_parses(s: Seq<char>, i: int, e: EntityView)
    requires
        wf_entity(e),
        0 <= i,
        i + spec_render_entity(e).len() <= s.len(),
        s.subrange(i, i + spec_render_entity(e).len() as int) == spec_render_entity(e),
    ensures
        spec_render_entity(e).len() >= 30,
        starts_with_at(s, i, "entity"@),
        spec_parse_entity_at(s, i + 6) is Some,
        spec_parse_entity_at(s, i + 6)->Some_0.0.name == e.name,
        events_match(spec_parse_entity_at(s, i + 6)->Some_0.0.events, e.events),
        spec_parse_entity_at(s, i + 6)->Some_0.1 == i + spec_render_entity(e).len() - 2,
        s[i + spec_render_entity(e).len() - 2] == '\n',
        s[i + spec_render_entity(e).len() - 1] == '\n',
{
    reveal_strlit("entity");
    reveal_strlit("entity ");
    reveal_strlit(" {\n    components: [");
    reveal_strlit("\n    components: [");
    reveal_strlit("];\n");
    reveal_strlit("}\n\n");
    reveal_strlit("on ");
    let re = spec_render_entity(e);
    let name = e.name;
    let jn = crate::meta_lang::spec_join_comma(e.components);
    let evs = spec_render_events(e.events);
    let nl = name.len() as int;
    let jl = jn.len() as int;
    let el = evs.len() as int;
    assert(re == "entity "@ + name + " {\n    components: ["@ + jn + "];\n"@ + evs + "}\n\n"@);
    assert(re.len() == nl + jl + el + 33);
    assert forall|x: int| 0 <= x < re.len() implies s[i + x] == re[x] by {
        assert(s.subrange(i, i + re.len() as int)[x] == s[i + x]);
    }
    // keyword and name
    assert(starts_with_at(s, i, "entity"@)) by {
        assert forall|x: int| 0 <= x < 6 implies s[i + x] == "entity"@[x] by {
            assert(re[x] == "entity "@[x]);
        }
        assert(s.subrange(i, i + 6) =~= "entity"@);
    }
    assert(s[i + 6] == ' ') by {
        assert(re[6] == "entity "@[6]);
    }
    assert forall|k: int| 0 <= k < nl implies s[i + 7 + k] == name[k] by {
        assert(re[7 + k] == name[k]);
    }
    let p = i + 7;
    assert(!is_space_char(s[p])) by {
        assert(s[i + 7 + 0] == name[0]);
    }
    assert(spec_skip_ws(s, i + 6) == p) by {
        lemma_skip_ws_through(s, i + 6, p);
    }
    let ne = p + nl;
    assert(s[ne] == ' ' && s[ne + 1] == '{') by {
        assert(re[7 + nl] == ' ' && re[8 + nl] == '{');
    }
    assert(spec_scan_name_end(s, p, '{') == ne) by {
        assert forall|k: int| p <= k < ne implies !is_space_char(s[k]) && s[k] != '{' by {
            assert(s[i + 7 + (k - p)] == name[k - p]);
        }
        lemma_scan_name_end_through(s, p, ne, '{');
    }
    assert(s.subrange(p, ne) =~= name) by {
        assert forall|k: int| p <= k < ne implies s[k] == name[k - p] by {
            assert(s[i + 7 + (k - p)] == name[k - p]);
        }
    }
    lemma_trim_id(name);
    let ob = ne + 1;
    assert(spec_scan_to(s, ne, '{') == ob) by {
        lemma_scan_to_through(s, ne, ob, '{');
    }
    // the block between the entity's braces
    let pb = "\n    components: ["@;
    let qb = "];\n"@;
    let blk = pb + jn + qb + evs;
    assert(blk.len() == 18 + jl + 3 + el);
    assert forall|x: int| 0 <= x < blk.len() implies s[ob + 1 + x] == blk[x] by {
        // the rendered literal ` {\n    components: [` supplies the block's
        // first stretch from its third character on
        assert(s[i + (9 + nl + x)] == re[9 + nl + x]);
        if x < 18 {
            assert(re[9 + nl + x] == " {\n    components: ["@[2 + x]);
            assert(" {\n    components: ["@[2 + x] == pb[x]);
            assert(blk[x] == pb[x]);
        } else if x < 18 + jl {
            assert(re[9 + nl + x] == jn[x - 18]);
            assert(blk[x] == jn[x - 18]);
        } else if x < 21 + jl {
            assert(re[9 + nl + x] == qb[x - 18 - jl]);
            assert(blk[x] == qb[x - 18 - jl]);
        } else {
            assert(re[9 + nl + x] == evs[x - 21 - jl]);
            assert(blk[x] == evs[x - 21 - jl]);
        }
    }
    assert(balanced(blk)) by {
        assert(forall|k: int| 0 <= k < pb.len() ==> pb[k] != '{' && pb[k] != '}');
        assert(forall|k: int| 0 <= k < qb.len() ==> qb[k] != '{' && qb[k] != '}');
        lemma_render_events_balanced(e.events);
        lemma_level_bracefree(pb, 1);
        lemma_level_concat(pb, jn + qb + evs, 1);
        assert(pb + jn + qb + evs =~= pb + (jn + qb + evs));
        lemma_level_bracefree(jn, 1);
        lemma_level_concat(jn, qb + evs, 1);
        assert(jn + qb + evs =~= jn + (qb + evs));
        lemma_level_bracefree(qb, 1);
        lemma_level_concat(qb, evs, 1);
        assert(qb + evs =~= qb + (evs));
        assert(blk =~= pb + (jn + (qb + evs)));
    }
    assert(s.subrange(ob + 1, ob + 1 + blk.len()) =~= blk);
    assert(s[ob + 1 + blk.len()] == '}') by {
        assert(s[i + (30 + nl + jl + el)] == re[30 + nl + jl + el]);
        assert(re[30 + nl + jl + el] == "}\n\n"@[0]);
    }
    lemma_brace_scan_balanced(s, ob + 1, blk);
    let close = ob + 1 + blk.len() + 1;
    assert(close == i + re.len() - 2);
    assert(s.subrange(ob + 1, close - 1) =~= blk);
    // the events of the block
    let estart = 21 + jl;
    assert(spec_scan_events(blk, 0) == spec_scan_events(blk, estart)) by {
        assert forall|k: int| 0 <= k < estart implies !starts_with_at(blk, k, "on "@) by {
            if starts_with_at(blk, k, "on "@) {
                assert(blk.subrange(k, k + 3)[0] == blk[k]);
                assert(blk.subrange(k, k + 3)[1] == blk[k + 1]);
                assert(blk.subrange(k, k + 3)[2] == blk[k + 2]);
                assert(blk[k] == 'o' && blk[k + 1] == 'n' && blk[k + 2] == ' ');
                if k < 18 {
                    assert(blk[k] == pb[k]);
                    if k + 1 < 18 {
                        assert(blk[k + 1] == pb[k + 1]);
                    } else {
                        assert(blk[k + 1] == (jn + qb)[k + 1 - 18] || true);
                    }
                    if k == 9 {
                        if jl > 0 {
                            assert(blk[18] == jn[0]);
                        } else {
                            assert(blk[18] == qb[0]);
                        }
                    }
                } else if k < 18 + jl {
                    if k + 3 <= 18 + jl {
                        assert(blk[k] == jn[k - 18] && blk[k + 1] == jn[k - 17] && blk[k + 2]
                            == jn[k - 16]);
                    } else if k + 2 <= 18 + jl {
                        assert(blk[k + 2] == qb[0]);
                    } else {
                        assert(blk[k + 1] == qb[0]);
                    }
                } else {
                    assert(blk[k] == qb[k - 18 - jl]);
                }
            }
        }
        lemma_scan_events_skip(blk, 0, estart);
    }
    assert(blk.subrange(estart, blk.len() as int) =~= evs);
    lemma_scan_rendered_events(blk, estart, e.events);
    // the parsed entity
    assert(spec_parse_entity_at(s, i + 6) is Some);
    let pr = spec_parse_entity_at(s, i + 6)->Some_0;
    assert(pr.0.name == e.name);
    assert(events_match(pr.0.events, e.events));
    assert(pr.1 == close);
    assert(s[i + re.len() - 2] == '\n') by {
        assert(s[i + (31 + nl + jl + el)] == re[31 + nl + jl + el]);
        assert(re[31 + nl + jl + el] == "}\n\n"@[1]);
    }
    assert(s[i + re.len() - 1] == '\n') by {
        assert(s[i + (32 + nl + jl + el)] == re[32 + nl + jl + el]);
        assert(re[32 + nl + jl + el] == "}\n\n"@[2]);
    }
}

/// Splitting a suffix equality at a concatenation boundary.
proof fn lemma_subrange_split(s: Seq<char>, i: int, r0: Seq<char>, rest: Seq<char>)
    requires
        0 <= i <= s.len(),
        s.subrange(i, s.len() as int) == r0 + rest,
    ensures
        i + r0.len() <= s.len(),
        s.subrange(i, i + r0.len() as int) == r0,
        s.subrange(i + r0.len(), s.len() as int) == rest,
{
    let t = r0 + rest;
    assert(t.len() == s.len() - i);
    assert(s.subrange(i, i + r0.len() as int) =~= r0) by {
        assert forall|x: int| 0 <= x < r0.len() implies s.subrange(i, i + r0.len() as int)[x]
            == r0[x] by {
            assert(s.subrange(i, i + r0.len() as int)[x] == s[i + x]);
            assert(s.subrange(i, s.len() as int)[x] == s[i + x]);
            assert(t[x] == r0[x]);
        }
    }
    assert(s.subrange(i + r0.len(), s.len() as int) =~= rest) by {
        assert forall|x: int| 0 <= x < rest.len() implies s.subrange(
            i + r0.len(),
            s.len() as int,
        )[x] == rest[x] by {
            assert(s.subrange(i + r0.len(), s.len() as int)[x] == s[i + r0.len() + x]);
            assert(s.subrange(i, s.len() as int)[r0.len() + x] == s[i + r0.len() + x]);
            assert(t[r0.len() + x] == rest[x]);
        }
    }
}

/// Parsing a rendered corpus recovers every entity's name and every
/// handler's name and body, in order.
#[verifier::rlimit(100)]
#[verifier::spinoff_prover]
pub proof fn lemma_scan_rendered_corpus(s: Seq<char>, i: int, es: Seq<EntityView>)
    requires
        0 <= i <= s.len(),
        s.subrange(i, s.len() as int) == spec_render_corpus(es),
        forall|k: int| 0 <= k < es.len() ==> wf_entity(#[trigger] es[k]),
    ensures
        entities_match(spec_scan_entities(s, i), es),
    decreases es.len(),
{
    reveal_strlit("entity");
    let t = spec_render_corpus(es);
    if es.len() == 0 {
        assert(t.len() == 0);
        assert(i == s.len());
        assert(entities_match(spec_scan_entities(s, i), es));
    } else {
        let e0 = es[0];
        assert(wf_entity(e0));
        let r0 = spec_render_entity(e0);
        let rest = spec_render_corpus(es.drop_first());
        assert(t == r0 + rest);
        lemma_subrange_split(s, i, r0, rest);
        lemma_rendered_entity_parses(s, i, e0);
        let nxt = i + r0.len() - 2;
        let pr = spec_parse_entity_at(s, i + 6)->Some_0;
        let parsed = spec_scan_entities(s, i);
        assert(parsed == seq![pr.0] + spec_scan_entities(s, nxt));
        assert forall|k: int| nxt <= k < nxt + 2 implies !starts_with_at(s, k, "entity"@) by {
            if starts_with_at(s, k, "entity"@) {
                assert(s.subrange(k, k + 6)[0] == s[k]);
                assert(s[k] == 'e');
                assert("entity"@[0] == 'e');
            }
        }
        lemma_scan_entities_skip(s, nxt, nxt + 2);
        assert(s.subrange(nxt + 2, s.len() as int) == rest) by {
            assert(nxt + 2 == i + r0.len());
        }
        assert(forall|k: int|
            0 <= k < es.drop_first().len() ==> wf_entity(#[trigger] es.drop_first()[k]));
        lemma_scan_rendered_corpus(s, nxt + 2, es.drop_first());
        let tail = spec_scan_entities(s, nxt + 2);
        assert(entities_match(tail, es.drop_first()));
        assert forall|k: int| 0 <= k < parsed.len() implies (#[trigger] parsed[k]).name
            == es[k].name && events_match(parsed[k].events, es[k].events) by {
            if k > 0 {
                assert(parsed[k] == tail[k - 1]);
                assert(es[k] == es.drop_first()[k - 1]);
            }
        }
        assert(parsed.len() == es.len());
    }
}

/// The corpus round trip: a rendered corpus of well-formed entities parses
/// back into the same number of entities, with the same names, the same
/// handler names, and the same handler bodies, in order.
pub proof fn lemma_render_parse_round_trip(es: Seq<EntityView>)
    requires
        forall|k: int| 0 <= k < es.len() ==> wf_entity(#[trigger] es[k]),
    ensures
        entities_match(spec_parse_entities(spec_render_corpus(es)), es),
{
    let s = spec_render_corpus(es);
    assert(s.subrange(0, s.len() as int) =~= s);
    lemma_scan_rendered_corpus(s, 0, es);
}

/// Corpus rewriting keeps the structure: entity count, entity names, handler
/// count and handler names are untouched; only bodies change.
pub proof fn lemma_rewrite_keeps_structure(
    es: Seq<EntityView>,
    a: Seq<(Seq<char>, Seq<char>)>,
)
    ensures
        crate::supercompiler::spec_rewrite_entities(es, a).len() == es.len(),
        forall|i: int|
            0 <= i < es.len() ==> {
                let rw = #[trigger] crate::supercompiler::spec_rewrite_entities(es, a)[i];
                &&& rw.name == es[i].name
                &&& rw.components == es[i].components
                &&& rw.events.len() == es[i].events.len()
                &&& forall|k: int|
                    0 <= k < es[i].events.len() ==> (#[trigger] rw.events[k]).name
                        == es[i].events[k].name
            },
    decreases es.len(),
{
    if es.len() > 0 {
        lemma_rewrite_keeps_structure(es.drop_first(), a);
        lemma_rewrite_events_names(es[0].events, a);
        let rw = crate::supercompiler::spec_rewrite_entities(es, a);
        assert forall|i: int| 0 <= i < es.len() implies {
            let rwi = #[trigger] rw[i];
            &&& rwi.name == es[i].name
            &&& rwi.components == es[i].components
            &&& rwi.events.len() == es[i].events.len()
            &&& forall|k: int|
                0 <= k < es[i].events.len() ==> (#[trigger] rwi.events[k]).name
                    == es[i].events[k].name
        } by {
            if i > 0 {
                assert(rw[i] == crate::supercompiler::spec_rewrite_entities(es.drop_first(), a)[i
                    - 1]);
                assert(es[i] == es.drop_first()[i - 1]);
            }
        }
    }
}

proof fn lemma_rewrite_events_names(evs: Seq<EventView>, a: Seq<(Seq<char>, Seq<char>)>)
    ensures
        crate::supercompiler::spec_rewrite_events(evs, a).len() == evs.len(),
        forall|k: int|
            0 <= k < evs.len() ==> (#[trigger] crate::supercompiler::spec_rewrite_events(
                evs,
                a,
            )[k]).name == evs[k].name,
    decreases evs.len(),
{
    if evs.len() > 0 {
        lemma_rewrite_events_names(evs.drop_first(), a);
        let rw = crate::supercompiler::spec_rewrite_events(evs, a);
        assert forall|k: int| 0 <= k < evs.len() implies (#[trigger] rw[k]).name
            == evs[k].name by {
            if k > 0 {
                assert(rw[k] == crate::supercompiler::spec_rewrite_events(evs.drop_first(), a)[k
                    - 1]);
                assert(evs[k] == evs.drop_first()[k - 1]);
            }
        }
    }
}

/// The simplification round trip: re-parsing a rewritten corpus file yields
/// the same number of entities as the original parse, with the same entity
/// names and the same handler names, in order — rewriting changes bodies,
/// never structure. The rewritten entities must be well formed for
/// rendering.
pub proof fn lemma_simplify_round_trip(content: Seq<char>, a: Seq<(Seq<char>, Seq<char>)>)
    requires
        forall|k: int|
            0 <= k < crate::supercompiler::spec_rewrite_entities(
                spec_parse_entities(content),
                a,
            ).len() ==> wf_entity(
                #[trigger] crate::supercompiler::spec_rewrite_entities(
                    spec_parse_entities(content),
                    a,
                )[k],
            ),
    ensures
        ({
            let orig = spec_parse_entities(content);
            let back = spec_parse_entities(
                crate::supercompiler::spec_rewritten_file(content, a),
            );
            &&& back.len() == orig.len()
            &&& forall|i: int|
                0 <= i < orig.len() ==> (#[trigger] back[i]).name == orig[i].name
                    && back[i].events.len() == orig[i].events.len() && (forall|k: int|
                    0 <= k < orig[i].events.len() ==> (#[trigger] back[i].events[k]).name
                        == orig[i].events[k].name)
        }),
{
    let orig = spec_parse_entities(content);
    let rw = crate::supercompiler::spec_rewrite_entities(orig, a);
    lemma_rewrite_keeps_structure(orig, a);
    lemma_render_parse_round_trip(rw);
    let back = spec_parse_entities(crate::supercompiler::spec_rewritten_file(content, a));
    assert(entities_match(back, rw));
    assert forall|i: int| 0 <= i < orig.len() implies (#[trigger] back[i]).name == orig[i].name
        && back[i].events.len() == orig[i].events.len() && (forall|k: int|
        0 <= k < orig[i].events.len() ==> (#[trigger] back[i].events[k]).name
            == orig[i].events[k].name) by {
        assert(back[i].name == rw[i].name);
        assert(events_match(back[i].events, rw[i].events));
        assert(rw[i].events.len() == orig[i].events.len());
        assert forall|k: int| 0 <= k < orig[i].events.len() implies (#[trigger] back[i].events[k]).name
            == orig[i].events[k].name by {
            assert(back[i].events[k].name == rw[i].events[k].name);
            assert(rw[i].events[k].name == orig[i].events[k].name);
        }
    }
}

/// Padding a trimmed sequence with one space on each side trims back to it.
pub proof fn lemma_trim_padded(body: Seq<char>)
    requires
        spec_trim(body) == body,
    ensures
        spec_trim(seq![' '] + body + seq![' ']) == body,
{
    let p = seq![' '] + body + seq![' '];
    if body.len() == 0 {
        assert(p.len() == 2);
        assert(p[0] == ' ' && p[1] == ' ');
        assert(spec_skip_ws(p, 0) == spec_skip_ws(p, 1));
        assert(spec_skip_ws(p, 1) == spec_skip_ws(p, 2));
        assert(spec_skip_ws_end(p, 2) == spec_skip_ws_end(p, 1));
        assert(spec_skip_ws_end(p, 1) == spec_skip_ws_end(p, 0));
        assert(spec_trim(p) =~= body);
    } else {
        // a nonempty trimmed sequence starts and ends with non-whitespace
        assert(!is_space_char(body[0]) && !is_space_char(body[body.len() - 1])) by {
            if is_space_char(body[0]) {
                assert(spec_skip_ws(body, 0) == spec_skip_ws(body, 1));
                crate::text::lemma_skip_ws_bounds(body, 1);
                crate::text::lemma_skip_ws_end_bounds(body, body.len() as int);
                assert(spec_trim(body).len() < body.len());
            }
            if is_space_char(body[body.len() - 1]) {
                assert(spec_skip_ws_end(body, body.len() as int) == spec_skip_ws_end(
                    body,
                    body.len() - 1,
                ));
                crate::text::lemma_skip_ws_bounds(body, 0);
                crate::text::lemma_skip_ws_end_bounds(body, body.len() - 1);
                assert(spec_trim(body).len() < body.len());
            }
        }
        assert(p[0] == ' ');
        assert(p[1] == body[0]);
        assert(p[p.len() - 1] == ' ');
        assert(p[p.len() - 2] == body[body.len() - 1]);
        assert(spec_skip_ws(p, 0) == spec_skip_ws(p, 1));
        assert(spec_skip_ws(p, 1) == 1);
        assert(spec_skip_ws_end(p, p.len() as int) == spec_skip_ws_end(p, p.len() - 1));
        assert(spec_skip_ws_end(p, p.len() - 1) == p.len() - 1);
        assert(spec_trim(p) =~= body);
    }
}

} // verus!
