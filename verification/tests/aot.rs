use experiment::aot::{generate_aot_manifest, generate_aot_source};
use experiment::supercompiler::HotSequence;

#[test]
fn generated_source_compiles_each_token_kind() {
    let hot = vec![HotSequence {
        token_sequence: "move;collide;takeDamage(5);other()".to_string(),
        helper_name: "helper_0".to_string(),
    }];
    let src = generate_aot_source(&hot);
    assert!(src.contains("fn helper_0(iterations: usize) {"));
    assert!(src.contains("        pos += vel * dt;\n"));
    assert!(src.contains("        let _ = pos;\n"));
    assert!(src.contains("        let _d = 10; let _ = _d;\n"));
    assert!(src.contains("        let _ = 0;\n"));
    assert!(src.contains("let iters = 10_000_000usize;"));
    assert!(src.contains("let t0 = Instant::now(); helper_0(iters);"));
}

#[test]
fn generated_source_exact_for_one_sequence() {
    let hot = vec![HotSequence {
        token_sequence: "move".to_string(),
        helper_name: "h".to_string(),
    }];
    let src = generate_aot_source(&hot);
    let expected = "use std::time::Instant;\n\n\
fn h(iterations: usize) {\n    \
let mut pos = 0.0f64; let vel = 5.0f64; let dt = 0.016f64;\n    \
for _ in 0..iterations {\n        \
pos += vel * dt;\n    \
}\n}\n\n\
fn main() {\n    \
let iters = 10_000_000usize;\n    \
let t0 = Instant::now(); h(iters); let d = t0.elapsed(); println!(\"AOT h: {:?}\", d);\n}\n";
    assert_eq!(src, expected);
}

#[test]
fn empty_hot_list_still_yields_a_driver() {
    let src = generate_aot_source(&Vec::new());
    assert_eq!(
        src,
        "use std::time::Instant;\n\nfn main() {\n    let iters = 10_000_000usize;\n}\n"
    );
}

#[test]
fn manifest_builds_release_profile() {
    let m = generate_aot_manifest();
    assert!(m.contains("name = \"aot_bin\""));
    assert!(m.contains("opt-level = 3"));
}
