//! Source generation for the native micro-benchmark: one tight-loop
//! function per hot sequence, a driver that times each with a
//! high-resolution clock, and the manifest of the generated package.
//! Building and running the generated package is the caller's concern.

use vstd::prelude::*;

use crate::ast::push_str_chars;
use crate::supercompiler::HotSequence;
use crate::text::{at_match, chars_to_string, spec_split, spec_trim, split_vec, str_to_chars,
    starts_with_at, trim_vec};

verus! {

/// The loop body line one statement token compiles to: a `move`-like token
/// becomes a physics integration step, a `collide`-like token a placeholder
/// read, a `takeDamage`-prefixed token a fixed counter decrement, and any
/// other token a harmless no-op.
pub open spec fn spec_token_line(t: Seq<char>) -> Seq<char> {
    if t == "move"@ {
        "        pos += vel * dt;\n"@
    } else if t == "collide"@ {
        "        let _ = pos;\n"@
    } else if starts_with_at(t, 0, "takeDamage"@) {
        "        let _d = 10; let _ = _d;\n"@
    } else {
        "        let _ = 0;\n"@
    }
}

pub open spec fn spec_token_lines(ps: Seq<Seq<char>>) -> Seq<char>
    decreases ps.len(),
{
    if ps.len() == 0 {
        Seq::empty()
    } else {
        spec_token_line(spec_trim(ps[0])) + spec_token_lines(ps.drop_first())
    }
}

/// One generated benchmark function: a fixed-iteration loop over the
/// compiled lines of the sequence's tokens.
pub open spec fn spec_fn_block(seqv: Seq<char>, name: Seq<char>) -> Seq<char> {
    "fn "@ + name + "(iterations: usize) {\n"@
        + "    let mut pos = 0.0f64; let vel = 5.0f64; let dt = 0.016f64;\n"@
        + "    for _ in 0..iterations {\n"@ + spec_token_lines(spec_split(seqv, ';'))
        + "    }\n}\n\n"@
}

pub open spec fn spec_fn_blocks(hs: Seq<(Seq<char>, Seq<char>)>) -> Seq<char>
    decreases hs.len(),
{
    if hs.len() == 0 {
        Seq::empty()
    } else {
        spec_fn_block(hs[0].0, hs[0].1) + spec_fn_blocks(hs.drop_first())
    }
}

/// One timing line of the generated driver.
pub open spec fn spec_bench_line(name: Seq<char>) -> Seq<char> {
    "    let t0 = Instant::now(); "@ + name
        + "(iters); let d = t0.elapsed(); println!(\"AOT "@ + name + ": {:?}\", d);\n"@
}

pub open spec fn spec_bench_lines(hs: Seq<(Seq<char>, Seq<char>)>) -> Seq<char>
    decreases hs.len(),
{
    if hs.len() == 0 {
        Seq::empty()
    } else {
        spec_bench_line(hs[0].1) + spec_bench_lines(hs.drop_first())
    }
}

/// The whole generated source module.
pub open spec fn spec_aot_source(hs: Seq<(Seq<char>, Seq<char>)>) -> Seq<char> {
    "use std::time::Instant;\n\n"@ + spec_fn_blocks(hs)
        + "fn main() {\n    let iters = 10_000_000usize;\n"@ + spec_bench_lines(hs) + "}\n"@
}

fn chars_eq_str(v: &Vec<char>, s: &str) -> (r: bool)
    ensures
        r == (v@ == s@),
{
    let n = s.unicode_len();
    if v.len() != n {
        return false;
    }
    let m = at_match(v, 0, s);
    proof {
        if m {
            assert(v@.subrange(0, n as int) =~= v@);
        } else {
            assert(v@ != s@) by {
                if v@ == s@ {
                    assert(v@.subrange(0, n as int) =~= s@);
                }
            }
        }
    }
    m
}

fn push_token_lines(seq_text: &String, out: &mut Vec<char>)
    ensures
        final(out)@ == old(out)@ + spec_token_lines(spec_split(seq_text@, ';')),
{
    let sv = str_to_chars(seq_text.as_str());
    let pieces = split_vec(&sv, ';');
    let ghost ps = pieces.deep_view();
    let mut i: usize = 0;
    proof {
        assert(ps.subrange(0, ps.len() as int) =~= ps);
        assert(out@ + spec_token_lines(ps) =~= old(out)@ + spec_token_lines(ps));
    }
    while i < pieces.len()
        invariant
            0 <= i <= pieces.len(),
            ps == pieces.deep_view(),
            ps.len() == pieces@.len(),
            out@ + spec_token_lines(ps.subrange(i as int, ps.len() as int)) == old(out)@
                + spec_token_lines(ps),
        decreases pieces.len() - i,
    {
        let ghost rem = ps.subrange(i as int, ps.len() as int);
        proof {
            assert(rem[0] == ps[i as int]);
            assert(ps[i as int] == pieces@[i as int]@);
            assert(rem.drop_first() =~= ps.subrange(i + 1, ps.len() as int));
        }
        let t = trim_vec(&pieces[i]);
        if chars_eq_str(&t, "move") {
            push_str_chars(out, "        pos += vel * dt;\n");
        } else if chars_eq_str(&t, "collide") {
            push_str_chars(out, "        let _ = pos;\n");
        } else if at_match(&t, 0, "takeDamage") {
            push_str_chars(out, "        let _d = 10; let _ = _d;\n");
        } else {
            push_str_chars(out, "        let _ = 0;\n");
        }
        proof {
            assert(out@ + spec_token_lines(ps.subrange(i + 1, ps.len() as int)) =~= old(out)@
                + spec_token_lines(ps));
        }
        i = i + 1;
    }
    proof {
        assert(ps.subrange(i as int, ps.len() as int) =~= Seq::<Seq<char>>::empty());
        assert(out@ =~= old(out)@ + spec_token_lines(ps));
    }
}

/// The source text of the benchmark module for the given hot sequences: one
/// looping function per sequence and a timing driver.
pub fn generate_aot_source(hot: &Vec<HotSequence>) -> (r: String)
    ensures
        r@ == spec_aot_source(hot.deep_view()),
{
    let ghost hs = hot.deep_view();
    let mut out: Vec<char> = Vec::new();
    push_str_chars(&mut out, "use std::time::Instant;\n\n");
    let ghost mid0 = out@;
    let mut i: usize = 0;
    proof {
        assert(hs.subrange(0, hs.len() as int) =~= hs);
        assert(out@ + spec_fn_blocks(hs) =~= mid0 + spec_fn_blocks(hs));
    }
    while i < hot.len()
        invariant
            0 <= i <= hot.len(),
            hs == hot.deep_view(),
            hs.len() == hot@.len(),
            out@ + spec_fn_blocks(hs.subrange(i as int, hs.len() as int)) == mid0 + spec_fn_blocks(
                hs,
            ),
        decreases hot.len() - i,
    {
        let ghost rem = hs.subrange(i as int, hs.len() as int);
        proof {
            assert(rem[0] == hs[i as int]);
            assert(hs[i as int] == hot@[i as int].deep_view());
            assert(rem.drop_first() =~= hs.subrange(i + 1, hs.len() as int));
        }
        push_str_chars(&mut out, "fn ");
        push_str_chars(&mut out, hot[i].helper_name.as_str());
        push_str_chars(&mut out, "(iterations: usize) {\n");
        push_str_chars(
            &mut out,
            "    let mut pos = 0.0f64; let vel = 5.0f64; let dt = 0.016f64;\n",
        );
        push_str_chars(&mut out, "    for _ in 0..iterations {\n");
        push_token_lines(&hot[i].token_sequence, &mut out);
        push_str_chars(&mut out, "    }\n}\n\n");
        proof {
            assert(out@ + spec_fn_blocks(hs.subrange(i + 1, hs.len() as int)) =~= mid0
                + spec_fn_blocks(hs));
        }
        i = i + 1;
    }
    proof {
        assert(hs.subrange(i as int, hs.len() as int) =~= Seq::<(Seq<char>, Seq<char>)>::empty());
    }
    push_str_chars(&mut out, "fn main() {\n    let iters = 10_000_000usize;\n");
    let ghost mid1 = out@;
    let mut j: usize = 0;
    proof {
        assert(hs.subrange(0, hs.len() as int) =~= hs);
        assert(out@ + spec_bench_lines(hs) =~= mid1 + spec_bench_lines(hs));
    }
    while j < hot.len()
        invariant
            0 <= j <= hot.len(),
            hs == hot.deep_view(),
            hs.len() == hot@.len(),
            out@ + spec_bench_lines(hs.subrange(j as int, hs.len() as int)) == mid1
                + spec_bench_lines(hs),
        decreases hot.len() - j,
    {
        let ghost rem = hs.subrange(j as int, hs.len() as int);
        proof {
            assert(rem[0] == hs[j as int]);
            assert(hs[j as int] == hot@[j as int].deep_view());
            assert(rem.drop_first() =~= hs.subrange(j + 1, hs.len() as int));
        }
        push_str_chars(&mut out, "    let t0 = Instant::now(); ");
        push_str_chars(&mut out, hot[j].helper_name.as_str());
        push_str_chars(&mut out, "(iters); let d = t0.elapsed(); println!(\"AOT ");
        push_str_chars(&mut out, hot[j].helper_name.as_str());
        push_str_chars(&mut out, ": {:?}\", d);\n");
        proof {
            assert(out@ + spec_bench_lines(hs.subrange(j + 1, hs.len() as int)) =~= mid1
                + spec_bench_lines(hs));
        }
        j = j + 1;
    }
    proof {
        assert(hs.subrange(j as int, hs.len() as int) =~= Seq::<(Seq<char>, Seq<char>)>::empty());
    }
    push_str_chars(&mut out, "}\n");
    proof {
        assert(out@ =~= spec_aot_source(hs));
    }
    chars_to_string(&out)
}

/// The manifest text of the generated benchmark package.
pub fn generate_aot_manifest() -> (r: String)
    ensures
        r@
            == "[package]\nname = \"aot_bin\"\nversion = \"0.1.0\"\nedition = \"2021\"\n\n[profile.release]\nopt-level = 3\n"@,
{
    "[package]\nname = \"aot_bin\"\nversion = \"0.1.0\"\nedition = \"2021\"\n\n[profile.release]\nopt-level = 3\n".to_owned()
}

} // verus!
