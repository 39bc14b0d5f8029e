use pg_bigmr::config::Config;
use pg_bigmr::consistent::{gin_bigm_triconsistent, GinTernaryValue};
use pg_bigmr::{BigmError, LIKE_STRATEGY_NUMBER, SIMILARITY_STRATEGY_NUMBER};

fn config(enable_recheck: bool, num: u32, den: u32) -> Config {
    Config { enable_recheck, gin_key_limit: 0, similarity_limit_num: num, similarity_limit_den: den }
}

use GinTernaryValue::{False, Maybe, True};

#[test]
fn like_any_false_key_rejects_the_row() {
    let checks = vec![True, False, True];
    for recheck in [true, false] {
        for needs in [true, false] {
            let r = gin_bigm_triconsistent(
                &checks,
                LIKE_STRATEGY_NUMBER,
                needs,
                &config(recheck, 3, 10),
            );
            assert_eq!(r.unwrap(), False);
        }
    }
    let r = gin_bigm_triconsistent(&vec![False], LIKE_STRATEGY_NUMBER, false, &config(true, 3, 10));
    assert_eq!(r.unwrap(), False);
}

#[test]
fn like_all_present_gives_maybe_when_rechecking() {
    let checks = vec![True, Maybe, True];
    let r = gin_bigm_triconsistent(&checks, LIKE_STRATEGY_NUMBER, true, &config(true, 3, 10));
    assert_eq!(r.unwrap(), Maybe);
}

#[test]
fn like_is_definite_when_recheck_disabled() {
    let checks = vec![True, Maybe, True];
    let r = gin_bigm_triconsistent(&checks, LIKE_STRATEGY_NUMBER, true, &config(false, 3, 10));
    assert_eq!(r.unwrap(), True);
}

#[test]
fn like_single_exact_key_is_definite() {
    // one key and no recheck requirement: the index answer is exact even
    // with rechecking enabled
    let r = gin_bigm_triconsistent(&vec![True], LIKE_STRATEGY_NUMBER, false, &config(true, 3, 10));
    assert_eq!(r.unwrap(), True);
    let r = gin_bigm_triconsistent(&vec![True], LIKE_STRATEGY_NUMBER, true, &config(true, 3, 10));
    assert_eq!(r.unwrap(), Maybe);
}

#[test]
fn similarity_with_no_keys_is_false() {
    let empty: Vec<GinTernaryValue> = Vec::new();
    for recheck in [true, false] {
        let r = gin_bigm_triconsistent(
            &empty,
            SIMILARITY_STRATEGY_NUMBER,
            false,
            &config(recheck, 0, 1),
        );
        assert_eq!(r.unwrap(), False);
    }
}

#[test]
fn similarity_below_threshold_is_false() {
    // 1 of 3 keys present, threshold 1/2
    let checks = vec![True, False, False];
    let r = gin_bigm_triconsistent(&checks, SIMILARITY_STRATEGY_NUMBER, true, &config(true, 1, 2));
    assert_eq!(r.unwrap(), False);
}

#[test]
fn similarity_at_threshold_is_maybe() {
    // 1 of 3 keys present, threshold 3/10: 1/3 >= 3/10
    let checks = vec![Maybe, False, False];
    let r = gin_bigm_triconsistent(&checks, SIMILARITY_STRATEGY_NUMBER, true, &config(true, 3, 10));
    assert_eq!(r.unwrap(), Maybe);
}

#[test]
fn similarity_is_definite_when_recheck_disabled() {
    let checks = vec![True, True, False];
    let r = gin_bigm_triconsistent(
        &checks,
        SIMILARITY_STRATEGY_NUMBER,
        true,
        &config(false, 1, 2),
    );
    assert_eq!(r.unwrap(), True);
}

#[test]
fn unknown_strategy_is_rejected() {
    let r = gin_bigm_triconsistent(&vec![True], 0, false, &config(true, 3, 10));
    assert_eq!(r.unwrap_err(), BigmError::UnrecognizedStrategy(0));
}
