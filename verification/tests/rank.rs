use satori::lexical::{token_overlap, tokenize};
use satori::rank::{fuse_ranked_hits, group_hits, group_positions, HitOrigin, RankedHit};

fn strings(v: &[&str]) -> Vec<String> {
    v.iter().map(|s| s.to_string()).collect()
}

#[test]
fn groups_in_first_appearance_order_with_at_most_three_hits() {
    let keys = strings(&["a.md", "b.md", "a.md", "a.md", "c.md", "a.md", "b.md"]);
    let groups = group_hits(&keys);
    let got: Vec<(String, Vec<usize>)> =
        groups.into_iter().map(|g| (g.key, g.positions)).collect();
    assert_eq!(
        got,
        vec![
            ("a.md".to_string(), vec![0, 2, 3]),
            ("b.md".to_string(), vec![1, 6]),
            ("c.md".to_string(), vec![4]),
        ]
    );
}

#[test]
fn grouping_nothing_gives_nothing() {
    assert!(group_hits(&Vec::new()).is_empty());
}

#[test]
fn group_positions_with_cap_one() {
    let keys = strings(&["x", "x", "y"]);
    let got: Vec<Vec<usize>> = group_positions(&keys, 1).into_iter().map(|g| g.positions).collect();
    assert_eq!(got, vec![vec![0], vec![2]]);
}

fn lance(v: &[(&str, &str)]) -> Vec<RankedHit> {
    v.iter()
        .map(|(id, src)| RankedHit { chunk_id: id.to_string(), source: src.to_string() })
        .collect()
}

#[test]
fn fusion_labels_and_ranks() {
    let l = lance(&[("c1", "lancedb"), ("c2", "lancedb"), ("c1", "lancedb")]);
    let f = strings(&["c2", "c3", "c3"]);
    let fused = fuse_ranked_hits(&l, &f);
    assert_eq!(fused.len(), 3);
    assert_eq!(fused[0].chunk_id, "c1");
    assert_eq!(fused[0].source, "lancedb+fusion");
    assert_eq!(fused[0].origin, HitOrigin::Lance(0));
    assert_eq!(fused[0].lance_ranks, vec![0, 2]);
    assert!(fused[0].falkor_ranks.is_empty());
    assert_eq!(fused[1].chunk_id, "c2");
    assert_eq!(fused[1].source, "falkor+fusion");
    assert_eq!(fused[1].lance_ranks, vec![1]);
    assert_eq!(fused[1].falkor_ranks, vec![0]);
    assert_eq!(fused[2].chunk_id, "c3");
    assert_eq!(fused[2].source, "falkor+fusion");
    assert_eq!(fused[2].origin, HitOrigin::Falkor(1));
    assert_eq!(fused[2].falkor_ranks, vec![1, 2]);
}

#[test]
fn fusion_lancedb_then_falkor() {
    let l = lance(&[("c1", "x"), ("c1", "x")]);
    let f = strings(&["c1"]);
    let fused = fuse_ranked_hits(&l, &f);
    assert_eq!(fused.len(), 1);
    assert_eq!(fused[0].source, "lancedb+falkor");
    let f2 = strings(&["c1", "c1"]);
    assert_eq!(fuse_ranked_hits(&l, &f2)[0].source, "falkor+fusion");
}

#[test]
fn fusion_single_hits_keep_labels() {
    let l = lance(&[("a", "index_fallback")]);
    let f = strings(&["b"]);
    let fused = fuse_ranked_hits(&l, &f);
    assert_eq!(fused[0].source, "index_fallback");
    assert_eq!(fused[1].source, "falkor");
}

#[test]
fn tokenize_lowercases_and_splits() {
    let t = tokenize("Hello, World! hello-world 42x");
    let toks: Vec<String> = t.tokens().clone();
    assert_eq!(toks, strings(&["hello", "world", "42x"]));
    assert_eq!(t.len(), 3);
    assert!(t.contains(&"world".to_string()));
    assert!(!t.contains(&"World".to_string()));
}

#[test]
fn tokenize_unicode() {
    let t = tokenize("Ünïcode café_déjà");
    assert_eq!(t.tokens().clone(), strings(&["ünïcode", "café", "déjà"]));
}

#[test]
fn tokenize_empty() {
    assert_eq!(tokenize(" ,;. ").len(), 0);
}

#[test]
fn overlap_counts_shared_tokens() {
    let q = tokenize("local memory pack");
    assert_eq!(token_overlap(&q, "The Memory pack is local."), 3);
    assert_eq!(token_overlap(&q, "memory memory"), 1);
    assert_eq!(token_overlap(&q, "nothing here"), 0);
}
