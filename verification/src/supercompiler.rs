//! Corpus simplification: mines statement sequences that recur across a
//! corpus, synthesizes a fresh helper for each sequence that recurs often
//! enough, rewrites every matching event body to a single call of its
//! helper, resolves wrapper chains in the resulting helper table, and picks
//! the most-replaced sequences as candidates for native promotion.
//!
//! Mining works on whole bodies: an event body's token sequence is its
//! `;`-split, trimmed, nonempty statement texts, and two bodies match when
//! those sequences are equal.

use vstd::prelude::*;

use crate::analyzer::{
    call_tokens, lemma_count_view_index, lemma_count_view_len, lemma_count_view_push,
    spec_call_tokens, spec_top_n, top_n_entries, CountMap,
};
use crate::ast::{
    parse_statements, spec_chase, spec_parse_statements, spec_table_insert, HelperTable, Stmt,
    StmtView, WrapperCycleError,
};
use crate::meta_lang::{
    parse_entities, render_corpus, spec_clean_pieces, spec_parse_entities, spec_render_corpus,
    Entity, EntityView, Event, EventView,
};
use crate::num_text::spec_nat_to_chars;
use crate::text::{chars_to_string, spec_split, split_vec, str_to_chars, trim_vec};

verus! {

/// The explicit knobs of one simplification run: how often a sequence must
/// recur to earn a helper, and how many helpers are promoted to native
/// candidates.
pub struct SimplifyConfig {
    pub min_occurrences: usize,
    pub max_hot: usize,
}

impl Default for SimplifyConfig {
    fn default() -> (r: Self)
        ensures
            r.min_occurrences == 2,
            r.max_hot == 3,
    {
        Self { min_occurrences: 2, max_hot: 3 }
    }
}

/// The summary of one simplification run.
pub struct SimplificationReport {
    pub helper_count: usize,
    pub total_replacements: usize,
}

/// A `;`-joined statement sequence chosen for native promotion, with the
/// helper synthesized for it.
pub struct HotSequence {
    pub token_sequence: String,
    pub helper_name: String,
}

/// The token sequence of an event body: its `;`-split pieces, trimmed,
/// empties dropped.
pub open spec fn spec_body_tokens(b: Seq<char>) -> Seq<Seq<char>> {
    spec_clean_pieces(spec_split(b, ';'))
}

/// Tokens joined back with `;`: the canonical text of a token sequence.
pub open spec fn spec_join_semi(ts: Seq<Seq<char>>) -> Seq<char>
    decreases ts.len(),
{
    if ts.len() == 0 {
        Seq::empty()
    } else if ts.len() == 1 {
        ts[0]
    } else {
        ts[0] + ";"@ + spec_join_semi(ts.drop_first())
    }
}

pub open spec fn spec_join_semi_tail(ts: Seq<Seq<char>>) -> Seq<char>
    decreases ts.len(),
{
    if ts.len() == 0 {
        Seq::empty()
    } else {
        ";"@ + ts[0] + spec_join_semi_tail(ts.drop_first())
    }
}

proof fn lemma_join_semi_tail(ts: Seq<Seq<char>>)
    requires
        ts.len() >= 1,
    ensures
        spec_join_semi(ts) == ts[0] + spec_join_semi_tail(ts.drop_first()),
    decreases ts.len(),
{
    if ts.len() == 1 {
        assert(ts.drop_first() =~= Seq::<Seq<char>>::empty());
        assert(spec_join_semi(ts) =~= ts[0] + spec_join_semi_tail(ts.drop_first()));
    } else {
        lemma_join_semi_tail(ts.drop_first());
        assert(spec_join_semi(ts) =~= ts[0] + spec_join_semi_tail(ts.drop_first()));
    }
}

/// The matching key of an event body: its token sequence joined with `;`.
pub open spec fn spec_body_key(b: Seq<char>) -> Seq<char> {
    spec_join_semi(spec_body_tokens(b))
}

fn clean_pieces(pieces: &Vec<Vec<char>>) -> (r: Vec<Vec<char>>)
    ensures
        r.deep_view() == spec_clean_pieces(pieces.deep_view()),
{
    let ghost ps = pieces.deep_view();
    let mut r: Vec<Vec<char>> = Vec::new();
    let mut i: usize = 0;
    proof {
        assert(ps.subrange(0, ps.len() as int) =~= ps);
        assert(r.deep_view() + spec_clean_pieces(ps) =~~= spec_clean_pieces(ps));
    }
    while i < pieces.len()
        invariant
            0 <= i <= pieces.len(),
            ps == pieces.deep_view(),
            ps.len() == pieces@.len(),
            spec_clean_pieces(ps) == r.deep_view() + spec_clean_pieces(
                ps.subrange(i as int, ps.len() as int),
            ),
        decreases pieces.len() - i,
    {
        let ghost rem = ps.subrange(i as int, ps.len() as int);
        proof {
            assert(rem[0] == ps[i as int]);
            assert(ps[i as int] == pieces@[i as int]@);
            assert(rem.drop_first() =~= ps.subrange(i + 1, ps.len() as int));
        }
        let t = trim_vec(&pieces[i]);
        if t.len() > 0 {
            let ghost r0 = r.deep_view();
            let ghost tv = t@;
            r.push(t);
            proof {
                assert(r.deep_view() =~~= r0.push(tv));
                assert(r.deep_view() + spec_clean_pieces(ps.subrange(i + 1, ps.len() as int))
                    =~~= spec_clean_pieces(ps));
            }
        } else {
            proof {
                assert(r.deep_view() + spec_clean_pieces(ps.subrange(i + 1, ps.len() as int))
                    =~~= spec_clean_pieces(ps));
            }
        }
        i = i + 1;
    }
    proof {
        assert(ps.subrange(i as int, ps.len() as int) =~= Seq::<Seq<char>>::empty());
        assert(r.deep_view() =~~= spec_clean_pieces(ps));
    }
    r
}

/// The matching key of one body.
pub fn body_key(body: &str) -> (r: String)
    ensures
        r@ == spec_body_key(body@),
{
    let bv = str_to_chars(body);
    let pieces = split_vec(&bv, ';');
    let toks = clean_pieces(&pieces);
    let ghost ts = toks.deep_view();
    let mut out: Vec<char> = Vec::new();
    if toks.len() == 0 {
        proof {
            assert(out@ =~= spec_body_key(body@));
        }
        return chars_to_string(&out);
    }
    proof {
        assert(ts[0] == toks@[0]@);
    }
    let first = &toks[0];
    let mut k: usize = 0;
    while k < first.len()
        invariant
            0 <= k <= first.len(),
            first@ == ts[0],
            out@ == ts[0].subrange(0, k as int),
        decreases first.len() - k,
    {
        let c = first[k];
        out.push(c);
        proof {
            assert(out@ =~= ts[0].subrange(0, k + 1));
        }
        k = k + 1;
    }
    proof {
        assert(out@ =~= ts[0]);
        lemma_join_semi_tail(ts);
        assert(ts.drop_first() =~= ts.subrange(1, ts.len() as int));
    }
    let mut i: usize = 1;
    while i < toks.len()
        invariant
            1 <= i <= toks.len(),
            ts == toks.deep_view(),
            ts.len() == toks@.len(),
            out@ + spec_join_semi_tail(ts.subrange(i as int, ts.len() as int)) == spec_join_semi(
                ts,
            ),
        decreases toks.len() - i,
    {
        let ghost rem = ts.subrange(i as int, ts.len() as int);
        proof {
            assert(rem[0] == ts[i as int]);
            assert(ts[i as int] == toks@[i as int]@);
            assert(rem.drop_first() =~= ts.subrange(i + 1, ts.len() as int));
        }
        crate::ast::push_str_chars(&mut out, ";");
        let piece = &toks[i];
        let ghost mid = out@;
        let mut k2: usize = 0;
        proof {
            assert(mid + ts[i as int].subrange(0, 0) =~= mid);
        }
        while k2 < piece.len()
            invariant
                0 <= k2 <= piece.len(),
                piece@ == ts[i as int],
                0 <= i < ts.len(),
                out@ == mid + ts[i as int].subrange(0, k2 as int),
            decreases piece.len() - k2,
        {
            let c = piece[k2];
            out.push(c);
            proof {
                assert(out@ =~= mid + ts[i as int].subrange(0, k2 + 1));
            }
            k2 = k2 + 1;
        }
        proof {
            assert(ts[i as int].subrange(0, ts[i as int].len() as int) =~= ts[i as int]);
            assert(out@ == mid + ts[i as int]);
            assert(out@ + spec_join_semi_tail(ts.subrange(i + 1, ts.len() as int))
                =~= spec_join_semi(ts));
        }
        i = i + 1;
    }
    proof {
        assert(ts.subrange(i as int, ts.len() as int) =~= Seq::<Seq<char>>::empty());
        assert(out@ =~= spec_join_semi(ts));
    }
    chars_to_string(&out)
}

/// The statement keywords the runtime recognizes; no helper may take one of
/// these names.
pub open spec fn spec_builtins() -> Seq<Seq<char>> {
    seq!["move"@, "collide"@, "takeDamage"@]
}

/// The key counts and the used-identifier list after scanning the events of
/// one entity: each body's key counted once, each body's call tokens added.
pub open spec fn spec_scan_events_acc(
    m: Seq<(Seq<char>, int)>,
    u: Seq<Seq<char>>,
    evs: Seq<EventView>,
) -> (Seq<(Seq<char>, int)>, Seq<Seq<char>>)
    decreases evs.len(),
{
    if evs.len() == 0 {
        (m, u)
    } else {
        let m2 = crate::analyzer::spec_bump(m, spec_body_key(evs[0].body));
        let u2 = u + spec_call_tokens(evs[0].body);
        spec_scan_events_acc(m2, u2, evs.drop_first())
    }
}

pub open spec fn spec_scan_entities_acc(
    m: Seq<(Seq<char>, int)>,
    u: Seq<Seq<char>>,
    es: Seq<EntityView>,
) -> (Seq<(Seq<char>, int)>, Seq<Seq<char>>)
    decreases es.len(),
{
    if es.len() == 0 {
        (m, u)
    } else {
        let r = spec_scan_events_acc(m, u, es[0].events);
        spec_scan_entities_acc(r.0, r.1, es.drop_first())
    }
}

/// The key counts and used-identifier list of a whole corpus, scanned file
/// by file in order.
pub open spec fn spec_scan_files_acc(
    m: Seq<(Seq<char>, int)>,
    u: Seq<Seq<char>>,
    files: Seq<Seq<char>>,
) -> (Seq<(Seq<char>, int)>, Seq<Seq<char>>)
    decreases files.len(),
{
    if files.len() == 0 {
        (m, u)
    } else {
        let r = spec_scan_entities_acc(m, u, spec_parse_entities(files[0]));
        spec_scan_files_acc(r.0, r.1, files.drop_first())
    }
}

/// The candidate helper name numbered `n`.
pub open spec fn spec_helper_candidate(n: int) -> Seq<char> {
    "helper_"@ + spec_nat_to_chars(n)
}

pub open spec fn spec_fuel(used_len: int) -> nat {
    if used_len < usize::MAX {
        (used_len + 1) as nat
    } else {
        usize::MAX as nat
    }
}

/// The first candidate number at or after `next` whose name the corpus does
/// not already use, searching at most `fuel` candidates and stopping at the
/// machine bound.
pub open spec fn spec_fresh_from(used: Seq<Seq<char>>, next: int, fuel: nat) -> int
    decreases fuel,
{
    if !used.contains(spec_helper_candidate(next)) || fuel == 0 || next >= usize::MAX {
        next
    } else {
        spec_fresh_from(used, next + 1, (fuel - 1) as nat)
    }
}

pub open spec fn cap_next(n: int) -> int {
    if n < usize::MAX {
        n + 1
    } else {
        n
    }
}

/// Each qualifying pattern, in first-seen order, paired with its fresh
/// helper name: a pattern qualifies when its count reaches `min` and its
/// key is nonempty.
pub open spec fn spec_assign(
    counts: Seq<(Seq<char>, int)>,
    used: Seq<Seq<char>>,
    min: int,
    next: int,
) -> Seq<(Seq<char>, Seq<char>)>
    decreases counts.len(),
{
    if counts.len() == 0 {
        Seq::empty()
    } else {
        let kc = counts[0];
        if kc.1 >= min && kc.0.len() > 0 {
            let num = spec_fresh_from(used, next, spec_fuel(used.len() as int));
            seq![(kc.0, spec_helper_candidate(num))] + spec_assign(
                counts.drop_first(),
                used,
                min,
                cap_next(num),
            )
        } else {
            spec_assign(counts.drop_first(), used, min, next)
        }
    }
}

/// The helper name assigned to `key`, if any.
pub open spec fn spec_assigned_name(a: Seq<(Seq<char>, Seq<char>)>, key: Seq<char>) -> Option<
    Seq<char>,
>
    decreases a.len(),
{
    if a.len() == 0 {
        None
    } else if a[0].0 == key {
        Some(a[0].1)
    } else {
        spec_assigned_name(a.drop_first(), key)
    }
}

/// An event after corpus rewriting: a body whose key earned a helper
/// becomes a single call of that helper; everything else is untouched.
pub open spec fn spec_rewrite_event(ev: EventView, a: Seq<(Seq<char>, Seq<char>)>) -> EventView {
    let body = match spec_assigned_name(a, spec_body_key(ev.body)) {
        Some(nm) => nm + "();"@,
        None => ev.body,
    };
    EventView { name: ev.name, params: ev.params, body }
}

pub open spec fn spec_rewrite_events(evs: Seq<EventView>, a: Seq<(Seq<char>, Seq<char>)>) -> Seq<
    EventView,
>
    decreases evs.len(),
{
    if evs.len() == 0 {
        Seq::empty()
    } else {
        seq![spec_rewrite_event(evs[0], a)] + spec_rewrite_events(evs.drop_first(), a)
    }
}

pub open spec fn spec_rewrite_entities(es: Seq<EntityView>, a: Seq<(Seq<char>, Seq<char>)>) -> Seq<
    EntityView,
>
    decreases es.len(),
{
    if es.len() == 0 {
        Seq::empty()
    } else {
        let e = es[0];
        seq![
            EntityView {
                name: e.name,
                components: e.components,
                events: spec_rewrite_events(e.events, a),
            },
        ] + spec_rewrite_entities(es.drop_first(), a)
    }
}

/// One corpus file after rewriting: its entities re-rendered with rewritten
/// bodies, structure unchanged.
pub open spec fn spec_rewritten_file(content: Seq<char>, a: Seq<(Seq<char>, Seq<char>)>) -> Seq<
    char,
> {
    spec_render_corpus(spec_rewrite_entities(spec_parse_entities(content), a))
}

pub open spec fn add1_cap(x: int) -> int {
    if x < usize::MAX {
        x + 1
    } else {
        x
    }
}

/// The replacement count after the events of one entity.
pub open spec fn spec_count_events(acc: int, evs: Seq<EventView>, a: Seq<(Seq<char>, Seq<char>)>) -> int
    decreases evs.len(),
{
    if evs.len() == 0 {
        acc
    } else {
        let acc2 = if spec_assigned_name(a, spec_body_key(evs[0].body)) is Some {
            add1_cap(acc)
        } else {
            acc
        };
        spec_count_events(acc2, evs.drop_first(), a)
    }
}

pub open spec fn spec_count_entities(
    acc: int,
    es: Seq<EntityView>,
    a: Seq<(Seq<char>, Seq<char>)>,
) -> int
    decreases es.len(),
{
    if es.len() == 0 {
        acc
    } else {
        spec_count_entities(spec_count_events(acc, es[0].events, a), es.drop_first(), a)
    }
}

/// The number of event bodies the rewriting replaced, across the corpus.
pub open spec fn spec_count_files(
    acc: int,
    files: Seq<Seq<char>>,
    a: Seq<(Seq<char>, Seq<char>)>,
) -> int
    decreases files.len(),
{
    if files.len() == 0 {
        acc
    } else {
        spec_count_files(
            spec_count_entities(acc, spec_parse_entities(files[0]), a),
            files.drop_first(),
            a,
        )
    }
}

/// What a helper's recorded body parses from: its key text. A key at the
/// machine length bound yields an empty body.
pub open spec fn spec_helper_body(key: Seq<char>) -> Seq<StmtView> {
    if key.len() < usize::MAX {
        spec_parse_statements(key)
    } else {
        Seq::empty()
    }
}

/// The helper table built by binding each assignment in order.
pub open spec fn spec_build_table(
    t: Seq<(Seq<char>, Seq<StmtView>)>,
    a: Seq<(Seq<char>, Seq<char>)>,
) -> Seq<(Seq<char>, Seq<StmtView>)>
    decreases a.len(),
{
    if a.len() == 0 {
        t
    } else {
        spec_build_table(spec_table_insert(t, a[0].1, spec_helper_body(a[0].0)), a.drop_first())
    }
}

/// The qualifying patterns of the count map, in first-seen order.
pub open spec fn spec_filter_counts(counts: Seq<(Seq<char>, int)>, min: int) -> Seq<
    (Seq<char>, int),
>
    decreases counts.len(),
{
    if counts.len() == 0 {
        Seq::empty()
    } else {
        let kc = counts[0];
        (if kc.1 >= min && kc.0.len() > 0 {
            seq![kc]
        } else {
            Seq::<(Seq<char>, int)>::empty()
        }) + spec_filter_counts(counts.drop_first(), min)
    }
}

/// Ranked patterns paired with their helper names; a pattern without a
/// name, which ranking cannot produce, keeps its own key.
pub open spec fn spec_hot_list(
    top: Seq<(Seq<char>, int)>,
    a: Seq<(Seq<char>, Seq<char>)>,
) -> Seq<(Seq<char>, Seq<char>)>
    decreases top.len(),
{
    if top.len() == 0 {
        Seq::empty()
    } else {
        let nm = match spec_assigned_name(a, top[0].0) {
            Some(n) => n,
            None => top[0].0,
        };
        seq![(top[0].0, nm)] + spec_hot_list(top.drop_first(), a)
    }
}

impl View for HotSequence {
    type V = (Seq<char>, Seq<char>);

    open spec fn view(&self) -> (Seq<char>, Seq<char>) {
        (self.token_sequence@, self.helper_name@)
    }
}

impl DeepView for HotSequence {
    type V = (Seq<char>, Seq<char>);

    open spec fn deep_view(&self) -> (Seq<char>, Seq<char>) {
        self.view()
    }
}

/// Distinct numbers give distinct candidate names.
pub proof fn lemma_candidate_injective(n: int, m: int)
    requires
        n >= 0,
        m >= 0,
        spec_helper_candidate(n) == spec_helper_candidate(m),
    ensures
        n == m,
{
    reveal_strlit("helper_");
    let a = spec_nat_to_chars(n);
    let b = spec_nat_to_chars(m);
    let ca = "helper_"@ + a;
    let cb = "helper_"@ + b;
    assert(ca.len() == 7 + a.len() && cb.len() == 7 + b.len());
    assert(a =~= b) by {
        assert forall|k: int| 0 <= k < a.len() implies a[k] == b[k] by {
            assert(ca[7 + k] == a[k]);
            assert(cb[7 + k] == b[k]);
        }
    }
    crate::num_text::lemma_nat_to_chars_digits(n);
    crate::num_text::lemma_nat_to_chars_digits(m);
}

proof fn lemma_fresh_search(used: Seq<Seq<char>>, next: int, fuel: nat)
    requires
        0 <= next,
        next + fuel < usize::MAX,
        exists|k: int| 0 <= k < fuel && !used.contains(#[trigger] spec_helper_candidate(next + k)),
    ensures
        !used.contains(spec_helper_candidate(spec_fresh_from(used, next, fuel))),
    decreases fuel,
{
    if !used.contains(spec_helper_candidate(next)) {
        assert(spec_fresh_from(used, next, fuel) == next);
    } else {
        let k = choose|k: int|
            0 <= k < fuel && !used.contains(#[trigger] spec_helper_candidate(next + k));
        assert(k >= 1);
        assert(0 <= k - 1 < fuel - 1 && !used.contains(spec_helper_candidate(next + 1 + (k - 1))));
        lemma_fresh_search(used, next + 1, (fuel - 1) as nat);
    }
}

/// The bounded search always succeeds: among the first `used.len() + 1`
/// candidate numbers one name is unused, and the search stops at the first
/// such, so the helper name it yields collides with nothing recorded in
/// `used`.
pub proof fn lemma_fresh_name_unused(used: Seq<Seq<char>>, next: int)
    requires
        0 <= next,
        next + used.len() + 1 < usize::MAX,
    ensures
        !used.contains(
            spec_helper_candidate(
                spec_fresh_from(used, next, spec_fuel(used.len() as int)),
            ),
        ),
{
    broadcast use vstd::set::group_set_axioms;

    let fuel = spec_fuel(used.len() as int);
    assert(fuel == used.len() + 1);
    assert(exists|k: int|
        0 <= k < fuel && !used.contains(#[trigger] spec_helper_candidate(next + k))) by {
        if forall|k: int|
            0 <= k < fuel ==> used.contains(#[trigger] spec_helper_candidate(next + k)) {
            let cands = Seq::new(fuel, |k: int| spec_helper_candidate(next + k));
            assert(cands.no_duplicates()) by {
                assert forall|p: int, q: int|
                    0 <= p < cands.len() && 0 <= q < cands.len() && p != q implies cands[p]
                    != cands[q] by {
                    if cands[p] == cands[q] {
                        lemma_candidate_injective(next + p, next + q);
                    }
                }
            }
            cands.unique_seq_to_set();
            assert(cands.to_set().subset_of(used.to_set())) by {
                assert forall|x: Seq<char>| cands.to_set().contains(x) implies used.to_set()
                    .contains(x) by {
                    let k = choose|k: int| 0 <= k < cands.len() && cands[k] == x;
                    assert(used.contains(spec_helper_candidate(next + k)));
                }
            }
            vstd::set_lib::lemma_len_subset(cands.to_set(), used.to_set());
            used.lemma_cardinality_of_set();
            assert(false);
        }
    }
    lemma_fresh_search(used, next, fuel);
}

proof fn lemma_fresh_bound(used: Seq<Seq<char>>, next: int, fuel: nat)
    requires
        0 <= next,
    ensures
        next <= spec_fresh_from(used, next, fuel) <= next + fuel,
    decreases fuel,
{
    if used.contains(spec_helper_candidate(next)) && fuel > 0 && next < usize::MAX {
        lemma_fresh_bound(used, next + 1, (fuel - 1) as nat);
    }
}

/// Every synthesized helper name is collision-free: no assigned name occurs
/// among the used identifiers, which hold the built-in statement keywords
/// and every call token of the corpus. The numeric bound keeps the whole
/// numbering below the machine limit.
pub proof fn lemma_assigned_names_fresh(
    counts: Seq<(Seq<char>, int)>,
    used: Seq<Seq<char>>,
    min: int,
    next: int,
)
    requires
        0 <= next,
        next + (counts.len() + 1) * (used.len() + 2) < usize::MAX,
    ensures
        forall|i: int|
            0 <= i < spec_assign(counts, used, min, next).len() ==> !used.contains(
                (#[trigger] spec_assign(counts, used, min, next)[i]).1,
            ),
    decreases counts.len(),
{
    if counts.len() > 0 {
        let a = spec_assign(counts, used, min, next);
        let kc = counts[0];
        assert((counts.len() + 1) * (used.len() + 2) >= (used.len() + 2)) by (nonlinear_arith)
            requires
                counts.len() >= 1,
                used.len() >= 0,
        ;
        if kc.1 >= min && kc.0.len() > 0 {
            let num = spec_fresh_from(used, next, spec_fuel(used.len() as int));
            lemma_fresh_name_unused(used, next);
            lemma_fresh_bound(used, next, spec_fuel(used.len() as int));
            assert(cap_next(num) + (counts.drop_first().len() + 1) * (used.len() + 2)
                < usize::MAX) by (nonlinear_arith)
                requires
                    cap_next(num) <= next + used.len() + 2,
                    counts.drop_first().len() == counts.len() - 1,
                    counts.len() >= 1,
                    used.len() >= 0,
                    next + (counts.len() + 1) * (used.len() + 2) < usize::MAX,
            ;
            lemma_assigned_names_fresh(counts.drop_first(), used, min, cap_next(num));
            let rest = spec_assign(counts.drop_first(), used, min, cap_next(num));
            assert forall|i: int| 0 <= i < a.len() implies !used.contains(
                (#[trigger] a[i]).1,
            ) by {
                if i > 0 {
                    assert(a[i] == rest[i - 1]);
                }
            }
        } else {
            assert(next + (counts.drop_first().len() + 1) * (used.len() + 2) < usize::MAX)
                by (nonlinear_arith)
                requires
                    counts.drop_first().len() == counts.len() - 1,
                    counts.len() >= 1,
                    used.len() >= 0,
                    next + (counts.len() + 1) * (used.len() + 2) < usize::MAX,
                    0 <= next,
            ;
            lemma_assigned_names_fresh(counts.drop_first(), used, min, next);
            let rest = spec_assign(counts.drop_first(), used, min, next);
            assert forall|i: int| 0 <= i < a.len() implies !used.contains(
                (#[trigger] a[i]).1,
            ) by {
                assert(a[i] == rest[i]);
            }
        }
    }
}

fn contains_string(v: &Vec<String>, s: &String) -> (r: bool)
    ensures
        r == v.deep_view().contains(s@),
{
    let mut i: usize = 0;
    while i < v.len()
        invariant
            0 <= i <= v.len(),
            forall|j: int| 0 <= j < i ==> v.deep_view()[j] != s@,
        decreases v.len() - i,
    {
        if v[i] == *s {
            proof {
                assert(v.deep_view()[i as int] == s@);
            }
            return true;
        }
        proof {
            assert(v.deep_view()[i as int] == v@[i as int]@);
        }
        i = i + 1;
    }
    proof {
        assert(!v.deep_view().contains(s@)) by {
            assert forall|j: int| 0 <= j < v.deep_view().len() implies v.deep_view()[j] != s@ by {}
        }
    }
    false
}

fn helper_candidate(n: usize) -> (r: String)
    ensures
        r@ == spec_helper_candidate(n as int),
{
    let mut out: Vec<char> = Vec::new();
    crate::ast::push_str_chars(&mut out, "helper_");
    crate::num_text::push_usize_chars(n, &mut out);
    chars_to_string(&out)
}

fn fresh_number(used: &Vec<String>, next: usize) -> (num: usize)
    ensures
        num as int == spec_fresh_from(
            used.deep_view(),
            next as int,
            spec_fuel(used.deep_view().len() as int),
        ),
{
    let mut fuel: usize = if used.len() < usize::MAX {
        used.len() + 1
    } else {
        usize::MAX
    };
    let mut k: usize = next;
    loop
        invariant
            spec_fresh_from(
                used.deep_view(),
                next as int,
                spec_fuel(used.deep_view().len() as int),
            ) == spec_fresh_from(used.deep_view(), k as int, fuel as nat),
        decreases fuel,
    {
        let cand = helper_candidate(k);
        if !contains_string(used, &cand) {
            return k;
        }
        if fuel == 0 {
            return k;
        }
        if k == usize::MAX {
            return k;
        }
        k = k + 1;
        fuel = fuel - 1;
    }
}

fn assigned_name(assigns: &Vec<(String, String)>, key: &String) -> (r: Option<String>)
    ensures
        match r {
            Some(nm) => spec_assigned_name(assigns.deep_view(), key@) == Some(nm@),
            None => spec_assigned_name(assigns.deep_view(), key@) is None,
        },
{
    let ghost av = assigns.deep_view();
    let mut i: usize = 0;
    proof {
        assert(av.subrange(0, av.len() as int) =~= av);
    }
    while i < assigns.len()
        invariant
            0 <= i <= assigns.len(),
            av == assigns.deep_view(),
            av.len() == assigns@.len(),
            spec_assigned_name(av, key@) == spec_assigned_name(
                av.subrange(i as int, av.len() as int),
                key@,
            ),
        decreases assigns.len() - i,
    {
        let ghost rem = av.subrange(i as int, av.len() as int);
        proof {
            assert(rem[0] == av[i as int]);
            assert(av[i as int] == assigns@[i as int].deep_view());
            assert(rem.drop_first() =~= av.subrange(i + 1, av.len() as int));
        }
        if assigns[i].0 == *key {
            return Some(assigns[i].1.clone());
        }
        i = i + 1;
    }
    proof {
        assert(av.subrange(i as int, av.len() as int) =~= Seq::<(Seq<char>, Seq<char>)>::empty());
    }
    None
}

/// Simplifies a corpus given as file contents, in order: mines recurring
/// whole-body token sequences, binds a fresh helper to each sequence that
/// recurs at least `min_occurrences` times, rewrites every matching event
/// body to one call of its helper, resolves wrapper chains in the helper
/// table, and ranks the most-replaced sequences. Returns the report, the
/// promoted hot sequences, the rewritten file contents in input order, and
/// the resolved helper table; a cyclic wrapper chain is reported as an
/// error.
pub fn simplify_sources(contents: &Vec<String>, config: &SimplifyConfig) -> (r: Result<
    (SimplificationReport, Vec<HotSequence>, Vec<String>, HelperTable),
    WrapperCycleError,
>)
    requires
        forall|i: int| 0 <= i < contents@.len() ==> (#[trigger] contents@[i])@.len() < usize::MAX,
    ensures
        ({
            let files_v = contents.deep_view();
            let scan = spec_scan_files_acc(Seq::empty(), spec_builtins(), files_v);
            let assigns_v = spec_assign(scan.0, scan.1, config.min_occurrences as int, 0);
            let t1 = spec_build_table(Seq::empty(), assigns_v);
            &&& (r is Ok <==> (forall|i: int|
                0 <= i < t1.len() ==> spec_chase(t1, t1[i].1, t1.len() as nat) is Some))
            &&& (r is Ok ==> {
                let rep = r->Ok_0.0;
                let hot = r->Ok_0.1;
                let outs = r->Ok_0.2;
                let table = r->Ok_0.3;
                &&& rep.helper_count as int == assigns_v.len()
                &&& rep.total_replacements as int == spec_count_files(0, files_v, assigns_v)
                &&& outs.deep_view().len() == files_v.len()
                &&& (forall|i: int|
                    0 <= i < files_v.len() ==> outs.deep_view()[i] == spec_rewritten_file(
                        files_v[i],
                        assigns_v,
                    ))
                &&& hot.deep_view() == spec_hot_list(
                    spec_top_n(
                        spec_filter_counts(scan.0, config.min_occurrences as int),
                        config.max_hot as int,
                    ),
                    assigns_v,
                )
                &&& table@.len() == t1.len()
                &&& (forall|i: int|
                    0 <= i < t1.len() ==> (#[trigger] table@[i]).0 == t1[i].0 && Some(
                        table@[i].1,
                    ) == spec_chase(t1, t1[i].1, t1.len() as nat))
            })
        }),
{
    let ghost files_v = contents.deep_view();
    // scan the corpus for body keys and used identifiers
    let mut counts = CountMap::new();
    let mut used: Vec<String> = Vec::new();
    used.push("move".to_owned());
    used.push("collide".to_owned());
    used.push("takeDamage".to_owned());
    proof {
        assert(used.deep_view() =~~= spec_builtins());
    }
    let ghost target_scan = spec_scan_files_acc(Seq::empty(), spec_builtins(), files_v);
    let mut fi: usize = 0;
    proof {
        assert(files_v.subrange(0, files_v.len() as int) =~= files_v);
    }
    while fi < contents.len()
        invariant
            0 <= fi <= contents.len(),
            files_v == contents.deep_view(),
            files_v.len() == contents@.len(),
            forall|i: int|
                0 <= i < contents@.len() ==> (#[trigger] contents@[i])@.len() < usize::MAX,
            target_scan == spec_scan_files_acc(
                counts@,
                used.deep_view(),
                files_v.subrange(fi as int, files_v.len() as int),
            ),
        decreases contents.len() - fi,
    {
        let ghost frem = files_v.subrange(fi as int, files_v.len() as int);
        proof {
            assert(frem[0] == files_v[fi as int]);
            assert(files_v[fi as int] == contents@[fi as int]@);
            assert(frem.drop_first() =~= files_v.subrange(fi + 1, files_v.len() as int));
        }
        let entities = parse_entities(contents[fi].as_str());
        let ghost es = entities.deep_view();
        let ghost file_target = spec_scan_entities_acc(counts@, used.deep_view(), es);
        let mut ej: usize = 0;
        proof {
            assert(es.subrange(0, es.len() as int) =~= es);
        }
        while ej < entities.len()
            invariant
                0 <= ej <= entities.len(),
                es == entities.deep_view(),
                es.len() == entities@.len(),
                file_target == spec_scan_entities_acc(
                    counts@,
                    used.deep_view(),
                    es.subrange(ej as int, es.len() as int),
                ),
            decreases entities.len() - ej,
        {
            let ghost erem = es.subrange(ej as int, es.len() as int);
            proof {
                assert(erem[0] == es[ej as int]);
                assert(es[ej as int] == entities@[ej as int].deep_view());
                assert(erem.drop_first() =~= es.subrange(ej + 1, es.len() as int));
            }
            let ghost evs = es[ej as int].events;
            let ghost ent_target = spec_scan_events_acc(counts@, used.deep_view(), evs);
            let mut ek: usize = 0;
            proof {
                assert(evs.subrange(0, evs.len() as int) =~= evs);
                assert(evs == entities@[ej as int].events.deep_view());
            }
            while ek < entities[ej].events.len()
                invariant
                    0 <= ej < entities.len(),
                    0 <= ek <= entities@[ej as int].events@.len(),
                    es == entities.deep_view(),
                    evs == entities@[ej as int].events.deep_view(),
                    evs.len() == entities@[ej as int].events@.len(),
                    ent_target == spec_scan_events_acc(
                        counts@,
                        used.deep_view(),
                        evs.subrange(ek as int, evs.len() as int),
                    ),
                decreases entities@[ej as int].events@.len() - ek,
            {
                let ghost vrem = evs.subrange(ek as int, evs.len() as int);
                proof {
                    assert(vrem[0] == evs[ek as int]);
                    assert(evs[ek as int] == entities@[ej as int].events@[ek as int].deep_view());
                    assert(vrem.drop_first() =~= evs.subrange(ek + 1, evs.len() as int));
                }
                let key = body_key(entities[ej].events[ek].body.as_str());
                counts.bump(key.as_str());
                let bv = str_to_chars(entities[ej].events[ek].body.as_str());
                let toks = call_tokens(&bv);
                let ghost u1 = used.deep_view();
                let ghost tv = toks.deep_view();
                let mut ti: usize = 0;
                proof {
                    assert(u1 + tv.subrange(0, 0) =~~= u1);
                }
                while ti < toks.len()
                    invariant
                        0 <= ti <= toks.len(),
                        tv == toks.deep_view(),
                        tv.len() == toks@.len(),
                        used.deep_view() == u1 + tv.subrange(0, ti as int),
                    decreases toks.len() - ti,
                {
                    let t = chars_to_string(&toks[ti]);
                    let ghost u_prev = used.deep_view();
                    used.push(t);
                    proof {
                        assert(tv[ti as int] == toks@[ti as int]@);
                        assert(used.deep_view() =~~= u_prev.push(tv[ti as int]));
                        assert(tv.subrange(0, ti as int).push(tv[ti as int]) =~= tv.subrange(
                            0,
                            ti + 1,
                        ));
                        assert(used.deep_view() =~~= u1 + tv.subrange(0, ti + 1));
                    }
                    ti = ti + 1;
                }
                proof {
                    assert(tv.subrange(0, tv.len() as int) =~= tv);
                    assert(used.deep_view() =~~= u1 + spec_call_tokens(vrem[0].body));
                }
                ek = ek + 1;
            }
            proof {
                assert(evs.subrange(ek as int, evs.len() as int) =~= Seq::<EventView>::empty());
            }
            ej = ej + 1;
        }
        proof {
            assert(es.subrange(ej as int, es.len() as int) =~= Seq::<EntityView>::empty());
        }
        fi = fi + 1;
    }
    proof {
        assert(files_v.subrange(fi as int, files_v.len() as int) =~= Seq::<Seq<char>>::empty());
    }
    let ghost counts_v = counts@;
    let ghost used_v = used.deep_view();
    // assign fresh helper names to qualifying patterns
    let mut assigns: Vec<(String, String)> = Vec::new();
    let mut next: usize = 0;
    let n_counts = counts.len();
    let mut ci: usize = 0;
    proof {
        assert(counts_v.subrange(0, counts_v.len() as int) =~= counts_v);
        assert(assigns.deep_view() + spec_assign(
            counts_v,
            used_v,
            config.min_occurrences as int,
            0,
        ) =~~= spec_assign(counts_v, used_v, config.min_occurrences as int, 0));
    }
    while ci < n_counts
        invariant
            0 <= ci <= n_counts,
            counts@ == counts_v,
            used.deep_view() == used_v,
            n_counts == counts_v.len(),
            spec_assign(counts_v, used_v, config.min_occurrences as int, 0) == assigns.deep_view()
                + spec_assign(
                counts_v.subrange(ci as int, counts_v.len() as int),
                used_v,
                config.min_occurrences as int,
                next as int,
            ),
        decreases n_counts - ci,
    {
        let ghost crem = counts_v.subrange(ci as int, counts_v.len() as int);
        proof {
            assert(crem[0] == counts_v[ci as int]);
            assert(crem.drop_first() =~= counts_v.subrange(ci + 1, counts_v.len() as int));
        }
        let key = counts.key_at(ci).clone();
        let c = counts.count_at(ci);
        if c >= config.min_occurrences && !key.as_str().is_empty() {
            let num = fresh_number(&used, next);
            let name = helper_candidate(num);
            let ghost a0 = assigns.deep_view();
            let ghost kv = key@;
            let ghost nv = name@;
            assigns.push((key, name));
            next = if num < usize::MAX {
                num + 1
            } else {
                num
            };
            proof {
                assert(assigns.deep_view() =~~= a0.push((kv, nv)));
                assert(assigns.deep_view() + spec_assign(
                    counts_v.subrange(ci + 1, counts_v.len() as int),
                    used_v,
                    config.min_occurrences as int,
                    next as int,
                ) =~~= spec_assign(counts_v, used_v, config.min_occurrences as int, 0));
            }
        } else {
            proof {
                assert(assigns.deep_view() + spec_assign(
                    counts_v.subrange(ci + 1, counts_v.len() as int),
                    used_v,
                    config.min_occurrences as int,
                    next as int,
                ) =~~= spec_assign(counts_v, used_v, config.min_occurrences as int, 0));
            }
        }
        ci = ci + 1;
    }
    proof {
        assert(counts_v.subrange(ci as int, counts_v.len() as int) =~= Seq::<
            (Seq<char>, int),
        >::empty());
    }
    let ghost av = assigns.deep_view();
    // record each helper's body
    let mut table = HelperTable::new();
    let mut bi: usize = 0;
    proof {
        assert(av.subrange(0, av.len() as int) =~= av);
        assert(spec_build_table(Seq::empty(), av) == spec_build_table(
            table@,
            av.subrange(0, av.len() as int),
        ));
    }
    while bi < assigns.len()
        invariant
            0 <= bi <= assigns.len(),
            av == assigns.deep_view(),
            av.len() == assigns@.len(),
            spec_build_table(Seq::empty(), av) == spec_build_table(
                table@,
                av.subrange(bi as int, av.len() as int),
            ),
        decreases assigns.len() - bi,
    {
        let ghost arem = av.subrange(bi as int, av.len() as int);
        proof {
            assert(arem[0] == av[bi as int]);
            assert(av[bi as int] == assigns@[bi as int].deep_view());
            assert(arem.drop_first() =~= av.subrange(bi + 1, av.len() as int));
        }
        let name_s = assigns[bi].1.clone();
        let body_stmts: Vec<Stmt> = if assigns[bi].0.as_str().unicode_len() < usize::MAX {
            parse_statements(assigns[bi].0.as_str())
        } else {
            Vec::new()
        };
        proof {
            assert(crate::ast::stmts_view(body_stmts@) == spec_helper_body(av[bi as int].0));
        }
        table.insert(name_s, body_stmts);
        bi = bi + 1;
    }
    proof {
        assert(av.subrange(bi as int, av.len() as int) =~= Seq::<(Seq<char>, Seq<char>)>::empty());
    }
    let ghost t1 = spec_build_table(Seq::<(Seq<char>, Seq<StmtView>)>::empty(), av);
    proof {
        assert(table@ == t1);
    }
    // resolve wrapper chains against the table as built
    match crate::ast::resolve_wrappers(&mut table) {
        Err(e) => {
            return Err(e);
        },
        Ok(()) => {},
    }
    // rewrite the corpus
    let mut outs: Vec<String> = Vec::new();
    let mut replacements: usize = 0;
    let ghost count_target = spec_count_files(0, files_v, av);
    let mut f2: usize = 0;
    proof {
        assert(files_v.subrange(0, files_v.len() as int) =~= files_v);
    }
    while f2 < contents.len()
        invariant
            0 <= f2 <= contents.len(),
            files_v == contents.deep_view(),
            files_v.len() == contents@.len(),
            av == assigns.deep_view(),
            forall|i: int|
                0 <= i < contents@.len() ==> (#[trigger] contents@[i])@.len() < usize::MAX,
            outs.deep_view().len() == f2,
            forall|j: int|
                0 <= j < f2 ==> outs.deep_view()[j] == spec_rewritten_file(files_v[j], av),
            count_target == spec_count_files(
                replacements as int,
                files_v.subrange(f2 as int, files_v.len() as int),
                av,
            ),
        decreases contents.len() - f2,
    {
        let ghost frem = files_v.subrange(f2 as int, files_v.len() as int);
        proof {
            assert(frem[0] == files_v[f2 as int]);
            assert(files_v[f2 as int] == contents@[f2 as int]@);
            assert(frem.drop_first() =~= files_v.subrange(f2 + 1, files_v.len() as int));
        }
        let entities = parse_entities(contents[f2].as_str());
        let ghost es = entities.deep_view();
        let ghost file_count_target = spec_count_entities(replacements as int, es, av);
        let mut new_entities: Vec<Entity> = Vec::new();
        let mut ej: usize = 0;
        proof {
            assert(es.subrange(0, es.len() as int) =~= es);
            assert(new_entities.deep_view() + spec_rewrite_entities(es, av)
                =~~= spec_rewrite_entities(es, av));
        }
        while ej < entities.len()
            invariant
                0 <= ej <= entities.len(),
                av == assigns.deep_view(),
                es == entities.deep_view(),
                es.len() == entities@.len(),
                spec_rewrite_entities(es, av) == new_entities.deep_view() + spec_rewrite_entities(
                    es.subrange(ej as int, es.len() as int),
                    av,
                ),
                file_count_target == spec_count_entities(
                    replacements as int,
                    es.subrange(ej as int, es.len() as int),
                    av,
                ),
            decreases entities.len() - ej,
        {
            let ghost erem = es.subrange(ej as int, es.len() as int);
            proof {
                assert(erem[0] == es[ej as int]);
                assert(es[ej as int] == entities@[ej as int].deep_view());
                assert(erem.drop_first() =~= es.subrange(ej + 1, es.len() as int));
            }
            let ghost evs = es[ej as int].events;
            let ghost ent_count_target = spec_count_events(replacements as int, evs, av);
            let mut new_events: Vec<Event> = Vec::new();
            let mut ek: usize = 0;
            proof {
                assert(evs.subrange(0, evs.len() as int) =~= evs);
                assert(evs == entities@[ej as int].events.deep_view());
                assert(new_events.deep_view() + spec_rewrite_events(evs, av)
                    =~~= spec_rewrite_events(evs, av));
            }
            while ek < entities[ej].events.len()
                invariant
                    0 <= ej < entities.len(),
                    0 <= ek <= entities@[ej as int].events@.len(),
                    av == assigns.deep_view(),
                    es == entities.deep_view(),
                    evs == entities@[ej as int].events.deep_view(),
                    evs.len() == entities@[ej as int].events@.len(),
                    spec_rewrite_events(evs, av) == new_events.deep_view()
                        + spec_rewrite_events(evs.subrange(ek as int, evs.len() as int), av),
                    ent_count_target == spec_count_events(
                        replacements as int,
                        evs.subrange(ek as int, evs.len() as int),
                        av,
                    ),
                decreases entities@[ej as int].events@.len() - ek,
            {
                let ghost vrem = evs.subrange(ek as int, evs.len() as int);
                proof {
                    assert(vrem[0] == evs[ek as int]);
                    assert(evs[ek as int] == entities@[ej as int].events@[ek as int].deep_view());
                    assert(vrem.drop_first() =~= evs.subrange(ek + 1, evs.len() as int));
                }
                let key = body_key(entities[ej].events[ek].body.as_str());
                let new_body: String = match assigned_name(&assigns, &key) {
                    Some(nm) => {
                        replacements = if replacements < usize::MAX {
                            replacements + 1
                        } else {
                            replacements
                        };
                        let mut b: Vec<char> = Vec::new();
                        crate::ast::push_str_chars(&mut b, nm.as_str());
                        crate::ast::push_str_chars(&mut b, "();");
                        chars_to_string(&b)
                    },
                    None => entities[ej].events[ek].body.clone(),
                };
                let params2: Option<String> = match &entities[ej].events[ek].params {
                    Some(p) => Some(p.clone()),
                    None => None,
                };
                let ghost ne0 = new_events.deep_view();
                let ev2 = Event {
                    name: entities[ej].events[ek].name.clone(),
                    params: params2,
                    body: new_body,
                };
                let ghost ev2v = ev2.deep_view();
                new_events.push(ev2);
                proof {
                    assert(new_events.deep_view() =~~= ne0.push(ev2v));
                    assert(ev2v == spec_rewrite_event(vrem[0], av));
                    assert(new_events.deep_view() + spec_rewrite_events(
                        evs.subrange(ek + 1, evs.len() as int),
                        av,
                    ) =~~= spec_rewrite_events(evs, av));
                }
                ek = ek + 1;
            }
            proof {
                assert(evs.subrange(ek as int, evs.len() as int) =~= Seq::<EventView>::empty());
                assert(new_events.deep_view() =~~= spec_rewrite_events(evs, av));
            }
            let ghost nn0 = new_entities.deep_view();
            let e2 = Entity {
                name: entities[ej].name.clone(),
                components: clone_strings(&entities[ej].components),
                events: new_events,
            };
            let ghost e2v = e2.deep_view();
            new_entities.push(e2);
            proof {
                assert(new_entities.deep_view() =~~= nn0.push(e2v));
                assert(e2v == EntityView {
                    name: erem[0].name,
                    components: erem[0].components,
                    events: spec_rewrite_events(erem[0].events, av),
                });
                assert(new_entities.deep_view() + spec_rewrite_entities(
                    es.subrange(ej + 1, es.len() as int),
                    av,
                ) =~~= spec_rewrite_entities(es, av));
            }
            ej = ej + 1;
        }
        proof {
            assert(es.subrange(ej as int, es.len() as int) =~= Seq::<EntityView>::empty());
            assert(new_entities.deep_view() =~~= spec_rewrite_entities(es, av));
        }
        let rendered = render_corpus(&new_entities);
        let ghost o0 = outs.deep_view();
        let ghost rv = rendered@;
        outs.push(rendered);
        proof {
            assert(outs.deep_view() =~~= o0.push(rv));
        }
        f2 = f2 + 1;
    }
    proof {
        assert(files_v.subrange(f2 as int, files_v.len() as int) =~= Seq::<Seq<char>>::empty());
    }
    // rank the replaced patterns
    let mut filtered: Vec<(String, usize)> = Vec::new();
    let mut qi: usize = 0;
    proof {
        assert(counts_v.subrange(0, counts_v.len() as int) =~= counts_v);
        assert(crate::analyzer::count_entries_view(filtered@) + spec_filter_counts(
            counts_v,
            config.min_occurrences as int,
        ) =~= spec_filter_counts(counts_v, config.min_occurrences as int));
    }
    while qi < n_counts
        invariant
            0 <= qi <= n_counts,
            counts@ == counts_v,
            n_counts == counts_v.len(),
            spec_filter_counts(counts_v, config.min_occurrences as int)
                == crate::analyzer::count_entries_view(filtered@) + spec_filter_counts(
                counts_v.subrange(qi as int, counts_v.len() as int),
                config.min_occurrences as int,
            ),
        decreases n_counts - qi,
    {
        let ghost crem = counts_v.subrange(qi as int, counts_v.len() as int);
        let ghost fl0 = filtered@;
        proof {
            assert(crem[0] == counts_v[qi as int]);
            assert(crem.drop_first() =~= counts_v.subrange(qi + 1, counts_v.len() as int));
        }
        let key = counts.key_at(qi).clone();
        let c = counts.count_at(qi);
        if c >= config.min_occurrences && !key.as_str().is_empty() {
            let ghost gx = (key, c);
            filtered.push((key, c));
            proof {
                lemma_count_view_push(fl0, gx);
                assert(filtered@ == fl0.push(gx));
                assert(crate::analyzer::count_entries_view(filtered@) + spec_filter_counts(
                    counts_v.subrange(qi + 1, counts_v.len() as int),
                    config.min_occurrences as int,
                ) =~= spec_filter_counts(counts_v, config.min_occurrences as int));
            }
        } else {
            proof {
                assert(crate::analyzer::count_entries_view(filtered@) + spec_filter_counts(
                    counts_v.subrange(qi + 1, counts_v.len() as int),
                    config.min_occurrences as int,
                ) =~= spec_filter_counts(counts_v, config.min_occurrences as int));
            }
        }
        qi = qi + 1;
    }
    proof {
        assert(counts_v.subrange(qi as int, counts_v.len() as int) =~= Seq::<
            (Seq<char>, int),
        >::empty());
    }
    let top = top_n_entries(&filtered, config.max_hot);
    let ghost topv = crate::analyzer::count_entries_view(top@);
    let mut hot: Vec<HotSequence> = Vec::new();
    let mut hi: usize = 0;
    proof {
        lemma_count_view_len(top@);
        assert(topv.subrange(0, topv.len() as int) =~= topv);
        assert(hot.deep_view() + spec_hot_list(topv, av) =~~= spec_hot_list(topv, av));
    }
    while hi < top.len()
        invariant
            0 <= hi <= top.len(),
            av == assigns.deep_view(),
            topv == crate::analyzer::count_entries_view(top@),
            topv.len() == top@.len(),
            spec_hot_list(topv, av) == hot.deep_view() + spec_hot_list(
                topv.subrange(hi as int, topv.len() as int),
                av,
            ),
        decreases top.len() - hi,
    {
        let ghost trem = topv.subrange(hi as int, topv.len() as int);
        proof {
            lemma_count_view_index(top@, hi as int);
            assert(trem[0] == topv[hi as int]);
            assert(trem.drop_first() =~= topv.subrange(hi + 1, topv.len() as int));
        }
        let k = top[hi].0.clone();
        let nm: String = match assigned_name(&assigns, &k) {
            Some(nm) => nm,
            None => k.clone(),
        };
        let ghost h0 = hot.deep_view();
        let hs = HotSequence { token_sequence: k, helper_name: nm };
        let ghost hsv = hs.deep_view();
        hot.push(hs);
        proof {
            assert(hot.deep_view() =~~= h0.push(hsv));
            assert(hot.deep_view() + spec_hot_list(topv.subrange(hi + 1, topv.len() as int), av)
                =~~= spec_hot_list(topv, av));
        }
        hi = hi + 1;
    }
    proof {
        assert(topv.subrange(hi as int, topv.len() as int) =~= Seq::<(Seq<char>, int)>::empty());
        assert(hot.deep_view() =~~= spec_hot_list(topv, av));
    }
    let rep = SimplificationReport {
        helper_count: assigns.len(),
        total_replacements: replacements,
    };
    Ok((rep, hot, outs, table))
}

fn clone_strings(v: &Vec<String>) -> (r: Vec<String>)
    ensures
        r.deep_view() == v.deep_view(),
{
    let mut r: Vec<String> = Vec::new();
    let mut i: usize = 0;
    while i < v.len()
        invariant
            0 <= i <= v.len(),
            r.deep_view() == v.deep_view().subrange(0, i as int),
        decreases v.len() - i,
    {
        let ghost r0 = r.deep_view();
        let c = v[i].clone();
        r.push(c);
        proof {
            assert(r.deep_view() =~~= r0.push(v@[i as int]@));
            assert(v.deep_view()[i as int] == v@[i as int]@);
            assert(r.deep_view() =~~= v.deep_view().subrange(0, i + 1));
        }
        i = i + 1;
    }
    proof {
        assert(v.deep_view().subrange(0, v.deep_view().len() as int) =~= v.deep_view());
    }
    r
}

} // verus!
