use yosoku::Prediction;
use yosoku::chain::PredictorChain;
use yosoku::predict::Predictor;

const LYRIC: [&str; 5] = ["never", "gonna", "give", "you", "up"];

/// A chain trained on "never gonna give you up", with "never" weighted to
/// the top of the empty context.
fn trained_chain() -> PredictorChain {
    let mut chain = PredictorChain::new();
    let empty: Vec<String> = Vec::new();
    chain.observe(&empty, "never");
    chain.observe(&empty, "never");
    for w in LYRIC {
        chain.observe(&empty, w);
    }
    for i in 0..LYRIC.len() - 1 {
        let context = vec![LYRIC[i].to_string()];
        chain.observe(&context, LYRIC[i + 1]);
    }
    chain
}

fn trained_predictor(depth: usize) -> Predictor {
    Predictor::new(trained_chain(), depth)
}

#[test]
fn word_after_trailing_separator() {
    let p = trained_predictor(1);
    match p.predict("never ") {
        Some(Prediction::Word(t)) => assert_eq!(t, "gonna"),
        other => panic!("expected Word(\"gonna\"), got {:?}", describe(&other)),
    }
}

#[test]
fn partial_completion_of_in_progress_word() {
    let p = trained_predictor(1);
    match p.predict("nev") {
        Some(Prediction::Partial(t)) => assert_eq!(t, "er"),
        other => panic!("expected Partial(\"er\"), got {:?}", describe(&other)),
    }
}

#[test]
fn partial_plus_in_progress_word_equals_candidate() {
    let p = trained_predictor(1);
    match p.predict("never go") {
        Some(Prediction::Partial(t)) => {
            let completed = format!("{}{}", "go", t);
            assert_eq!(completed, "gonna");
        },
        other => panic!("expected a partial, got {:?}", describe(&other)),
    }
}

#[test]
fn no_prediction_on_prefix_mismatch() {
    let p = trained_predictor(1);
    assert!(p.predict("zz").is_none());
}

#[test]
fn empty_input_predicts_from_empty_context() {
    let p = trained_predictor(1);
    match p.predict("") {
        Some(Prediction::Word(t)) => assert_eq!(t, "never"),
        other => panic!("expected Word(\"never\"), got {:?}", describe(&other)),
    }
}

#[test]
fn depth_zero_degrades_to_global_ranking() {
    let p = trained_predictor(0);
    match p.predict("gonna give you ") {
        Some(Prediction::Word(t)) => assert_eq!(t, "never"),
        other => panic!("expected Word(\"never\"), got {:?}", describe(&other)),
    }
}

#[test]
fn predict_is_pure_across_repeated_calls() {
    let p = trained_predictor(1);
    for input in ["", "nev", "never ", "never gonna ", "zz", "give you "] {
        let a = p.predict(input);
        let b = p.predict(input);
        assert_eq!(describe(&a), describe(&b));
    }
}

#[test]
fn prediction_on_empty_chain_is_none() {
    let p = Predictor::new(PredictorChain::new(), 3);
    assert!(p.predict("").is_none());
    assert!(p.predict("whatever ").is_none());
    assert!(p.predict("wha").is_none());
}

fn describe(p: &Option<Prediction>) -> String {
    match p {
        Some(Prediction::Word(t)) => format!("Word({})", t),
        Some(Prediction::Partial(t)) => format!("Partial({})", t),
        None => "None".to_string(),
    }
}
