use wordle::feedback::evaluate;
use wordle::ranking::{pattern_code, pattern_histogram, pattern_histograms, rank, PATTERN_COUNT};
use wordle::word::Word;

fn w(s: &str) -> Word {
    Word::parse(s).unwrap()
}

fn words(list: &[&str]) -> Vec<Word> {
    list.iter().map(|s| w(s)).collect()
}

fn entropy(histogram: &[usize]) -> f64 {
    let total: usize = histogram.iter().sum();
    histogram
        .iter()
        .filter(|&&c| c > 0)
        .map(|&c| {
            let p = c as f64 / total as f64;
            -p * p.log2()
        })
        .sum()
}

#[test]
fn empty_pool_gives_empty_recommendation() {
    let pool: Vec<Word> = Vec::new();
    assert!(pattern_histograms(&pool).is_empty());
    assert!(rank(&pool, &Vec::new()).is_empty());
}

#[test]
fn lone_candidate_has_zero_entropy() {
    let pool = words(&["crane"]);
    let h = pattern_histogram(&w("crane"), &pool);
    assert_eq!(h.len(), PATTERN_COUNT);
    assert!(h.iter().all(|&c| c == 0));
    assert_eq!(entropy(&h), 0.0);
}

#[test]
fn histogram_counts_every_other_word_once() {
    let pool = words(&["crane", "slate", "trace", "stale", "least"]);
    let all = pattern_histograms(&pool);
    assert_eq!(all.len(), pool.len());
    for (i, h) in all.iter().enumerate() {
        assert_eq!(h.iter().sum::<usize>(), pool.len() - 1);
        for secret in &pool {
            if secret != &pool[i] {
                let code = pattern_code(&evaluate(secret, &pool[i])) as usize;
                assert!(h[code] >= 1);
            }
        }
        assert!(entropy(h) >= 0.0);
    }
    // 'slate' against 'stale' and against 'least' draw different patterns.
    let h = pattern_histogram(&w("slate"), &words(&["stale", "least"]));
    assert_eq!(h.iter().filter(|&&c| c == 1).count(), 2);
    assert!((entropy(&h) - 1.0).abs() < 1e-12);
}

#[test]
fn ranking_orders_by_score_then_word() {
    let candidates = words(&["trace", "crane", "slate", "stale"]);
    let scores = vec![5u64, 9, 5, 1];
    let ranked = rank(&candidates, &scores);
    let expected = vec![(w("crane"), 9), (w("slate"), 5), (w("trace"), 5), (w("stale"), 1)];
    assert_eq!(ranked, expected);
}

#[test]
fn ranking_keeps_every_entry() {
    let candidates = words(&["bbbbb", "aaaaa", "ccccc", "aaaaa"]);
    let scores = vec![0u64, 0, 0, 0];
    let ranked = rank(&candidates, &scores);
    assert_eq!(
        ranked,
        vec![(w("aaaaa"), 0), (w("aaaaa"), 0), (w("bbbbb"), 0), (w("ccccc"), 0)]
    );
}
