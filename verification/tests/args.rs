use n_body_sim::{parsearg, parsenum, settings, ArgError, Mode, Settings};
use rand::Rng;

#[test]
fn goodnum() {
    let mut rng = rand::thread_rng();
    for _ in 0..10000 {
        let num = rng.gen::<u32>();
        assert!(parsenum(&num.to_string()) == Ok(num));
    }
}

#[test]
fn floatnum() {
    assert_eq!(parsenum("4.0"), Err(ArgError::NotAnInteger));
}

#[test]
fn strnum() {
    assert_eq!(parsenum("imastring"), Err(ArgError::NotAnInteger));
}

#[test]
fn negnum() {
    assert_eq!(parsenum("-30"), Err(ArgError::NotAnInteger));
}

#[test]
fn bignum() {
    assert_eq!(
        parsenum("99999999999999999999999999999999999999999999999999999999999"),
        Err(ArgError::NotAnInteger)
    );
}

#[test]
fn parsenum_limits() {
    assert_eq!(parsenum("0"), Ok(0));
    assert_eq!(parsenum("4294967295"), Ok(u32::MAX));
    assert_eq!(parsenum("4294967296"), Err(ArgError::NotAnInteger));
    assert_eq!(parsenum("4294967300"), Err(ArgError::NotAnInteger));
    assert_eq!(parsenum("000000000000042"), Ok(42));
}

#[test]
fn parsenum_sign_and_blanks() {
    assert_eq!(parsenum("+17"), Ok(17));
    assert_eq!(parsenum("+"), Err(ArgError::NotAnInteger));
    assert_eq!(parsenum(""), Err(ArgError::NotAnInteger));
    assert_eq!(parsenum("++1"), Err(ArgError::NotAnInteger));
    assert_eq!(parsenum(" 1"), Err(ArgError::NotAnInteger));
    assert_eq!(parsenum("1 "), Err(ArgError::NotAnInteger));
    assert_eq!(parsenum("1e3"), Err(ArgError::NotAnInteger));
    assert_eq!(parsenum("\u{0663}"), Err(ArgError::NotAnInteger));
}

#[test]
fn parsenum_agrees_with_std() {
    let inputs = ["0", "7", "+7", "-7", "", "+", "12a", "4294967295", "4294967296", "00", "٣"];
    for s in inputs {
        let std_result: Option<u32> = s.parse::<u32>().ok();
        assert_eq!(parsenum(s).ok(), std_result, "input {:?}", s);
    }
}

fn args(list: &[&str]) -> Vec<String> {
    list.iter().map(|s| s.to_string()).collect()
}

#[test]
fn parsearg_accepts_both_modes() {
    assert_eq!(parsearg(&args(&["1", "1000"])), Ok(vec![1, 1000]));
    assert_eq!(parsearg(&args(&["2", "0"])), Ok(vec![2, 0]));
}

#[test]
fn parsearg_wrong_count() {
    assert_eq!(parsearg(&args(&[])), Err(ArgError::Usage));
    assert_eq!(parsearg(&args(&["1"])), Err(ArgError::Usage));
    assert_eq!(parsearg(&args(&["1", "2", "3"])), Err(ArgError::Usage));
    assert_eq!(parsearg(&args(&["x", "y", "z"])), Err(ArgError::Usage));
}

#[test]
fn parsearg_bad_number() {
    assert_eq!(parsearg(&args(&["1", "many"])), Err(ArgError::NotAnInteger));
    assert_eq!(parsearg(&args(&["one", "10"])), Err(ArgError::NotAnInteger));
    assert_eq!(parsearg(&args(&["3", "-1"])), Err(ArgError::NotAnInteger));
    assert_eq!(parsearg(&args(&["1", "4294967296"])), Err(ArgError::NotAnInteger));
}

#[test]
fn parsearg_bad_mode() {
    assert_eq!(parsearg(&args(&["0", "10"])), Err(ArgError::Mode));
    assert_eq!(parsearg(&args(&["3", "10"])), Err(ArgError::Mode));
}

#[test]
fn error_messages() {
    assert_eq!(
        ArgError::Usage.message(),
        "usage: n_body_sim <1 (naive) or 2 (with tree)> <number of bodies to simulate>"
    );
    assert_eq!(ArgError::NotAnInteger.message(), "error: please provide only integers < 2^32");
    assert_eq!(ArgError::Mode.message(), "error: first argument must be 1 or 2");
}

#[test]
fn settings_choose_the_mode() {
    assert_eq!(
        settings(&args(&["1", "1000"])),
        Ok(Settings { mode: Mode::Naive, body_count: 1000 })
    );
    assert_eq!(settings(&args(&["2", "8"])), Ok(Settings { mode: Mode::Tree, body_count: 8 }));
    assert_eq!(settings(&args(&["0", "8"])), Err(ArgError::Mode));
    assert_eq!(settings(&args(&["2"])), Err(ArgError::Usage));
    assert_eq!(settings(&args(&["2", "8.5"])), Err(ArgError::NotAnInteger));
}
