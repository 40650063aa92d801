//! Which error a text gives that both overflows and holds a stray byte.
//!
//! The parser gathers digits and folds them into the magnitude 19 at a time,
//! which is when an overflow is noticed. So the chunk length is observable:
//! this table pins it.

use fin_decimal::{Amount128, Amount256, Amount64};
use std::str::FromStr;

fn render<T: std::fmt::Display, E: std::fmt::Debug>(r: Result<T, E>) -> String {
    match r {
        Ok(v) => format!("Ok(\"{v}\")"),
        Err(e) => format!("Err({e:?})"),
    }
}

/// `(input, expected Amount64, expected Amount128, expected Amount256)`
const CADENCE: &[(&str, &str, &str, &str)] = &[
        (r#"9x"#, r#"Err(InvalidDigit)"#, r#"Err(InvalidDigit)"#, r#"Err(InvalidDigit)"#),
        (r#"9.9999x"#, r#"Err(InvalidDigit)"#, r#"Err(InvalidDigit)"#, r#"Err(InvalidDigit)"#),
        (r#"9"#, r#"Ok("9")"#, r#"Ok("9")"#, r#"Ok("9")"#),
        (r#"999999999999999x"#, r#"Err(InvalidDigit)"#, r#"Err(InvalidDigit)"#, r#"Err(InvalidDigit)"#),
        (r#"999999999999999.9999x"#, r#"Err(InvalidDigit)"#, r#"Err(InvalidDigit)"#, r#"Err(InvalidDigit)"#),
        (r#"999999999999999"#, r#"Err(Overflow)"#, r#"Ok("999999999999999")"#, r#"Ok("999999999999999")"#),
        (r#"9999999999999999x"#, r#"Err(InvalidDigit)"#, r#"Err(InvalidDigit)"#, r#"Err(InvalidDigit)"#),
        (r#"9999999999999999.9999x"#, r#"Err(InvalidDigit)"#, r#"Err(InvalidDigit)"#, r#"Err(InvalidDigit)"#),
        (r#"9999999999999999"#, r#"Err(Overflow)"#, r#"Ok("9999999999999999")"#, r#"Ok("9999999999999999")"#),
        (r#"99999999999999999x"#, r#"Err(InvalidDigit)"#, r#"Err(InvalidDigit)"#, r#"Err(InvalidDigit)"#),
        (r#"99999999999999999.9999x"#, r#"Err(InvalidDigit)"#, r#"Err(InvalidDigit)"#, r#"Err(InvalidDigit)"#),
        (r#"99999999999999999"#, r#"Err(Overflow)"#, r#"Ok("99999999999999999")"#, r#"Ok("99999999999999999")"#),
        (r#"999999999999999999x"#, r#"Err(InvalidDigit)"#, r#"Err(InvalidDigit)"#, r#"Err(InvalidDigit)"#),
        (r#"999999999999999999.9999x"#, r#"Err(InvalidDigit)"#, r#"Err(InvalidDigit)"#, r#"Err(InvalidDigit)"#),
        (r#"999999999999999999"#, r#"Err(Overflow)"#, r#"Ok("999999999999999999")"#, r#"Ok("999999999999999999")"#),
        (r#"9999999999999999999x"#, r#"Err(InvalidDigit)"#, r#"Err(InvalidDigit)"#, r#"Err(InvalidDigit)"#),
        (r#"9999999999999999999.9999x"#, r#"Err(InvalidDigit)"#, r#"Err(InvalidDigit)"#, r#"Err(InvalidDigit)"#),
        (r#"9999999999999999999"#, r#"Err(Overflow)"#, r#"Ok("9999999999999999999")"#, r#"Ok("9999999999999999999")"#),
        (r#"99999999999999999999x"#, r#"Err(InvalidDigit)"#, r#"Err(InvalidDigit)"#, r#"Err(InvalidDigit)"#),
        (r#"99999999999999999999.9999x"#, r#"Err(InvalidDigit)"#, r#"Err(InvalidDigit)"#, r#"Err(InvalidDigit)"#),
        (r#"99999999999999999999"#, r#"Err(Overflow)"#, r#"Ok("99999999999999999999")"#, r#"Ok("99999999999999999999")"#),
        (r#"999999999999999999999x"#, r#"Err(InvalidDigit)"#, r#"Err(InvalidDigit)"#, r#"Err(InvalidDigit)"#),
        (r#"999999999999999999999.9999x"#, r#"Err(InvalidDigit)"#, r#"Err(InvalidDigit)"#, r#"Err(InvalidDigit)"#),
        (r#"999999999999999999999"#, r#"Err(Overflow)"#, r#"Ok("999999999999999999999")"#, r#"Ok("999999999999999999999")"#),
        (r#"9999999999999999999999999999999x"#, r#"Err(InvalidDigit)"#, r#"Err(InvalidDigit)"#, r#"Err(InvalidDigit)"#),
        (r#"9999999999999999999999999999999.9999x"#, r#"Err(InvalidDigit)"#, r#"Err(InvalidDigit)"#, r#"Err(InvalidDigit)"#),
        (r#"9999999999999999999999999999999"#, r#"Err(Overflow)"#, r#"Ok("9999999999999999999999999999999")"#, r#"Ok("9999999999999999999999999999999")"#),
        (r#"99999999999999999999999999999999x"#, r#"Err(InvalidDigit)"#, r#"Err(InvalidDigit)"#, r#"Err(InvalidDigit)"#),
        (r#"99999999999999999999999999999999.9999x"#, r#"Err(InvalidDigit)"#, r#"Err(InvalidDigit)"#, r#"Err(InvalidDigit)"#),
        (r#"99999999999999999999999999999999"#, r#"Err(Overflow)"#, r#"Ok("99999999999999999999999999999999")"#, r#"Ok("99999999999999999999999999999999")"#),
        (r#"999999999999999999999999999999999x"#, r#"Err(InvalidDigit)"#, r#"Err(InvalidDigit)"#, r#"Err(InvalidDigit)"#),
        (r#"999999999999999999999999999999999.9999x"#, r#"Err(InvalidDigit)"#, r#"Err(InvalidDigit)"#, r#"Err(InvalidDigit)"#),
        (r#"999999999999999999999999999999999"#, r#"Err(Overflow)"#, r#"Ok("999999999999999999999999999999999")"#, r#"Ok("999999999999999999999999999999999")"#),
        (r#"9999999999999999999999999999999999x"#, r#"Err(InvalidDigit)"#, r#"Err(InvalidDigit)"#, r#"Err(InvalidDigit)"#),
        (r#"9999999999999999999999999999999999.9999x"#, r#"Err(Overflow)"#, r#"Err(InvalidDigit)"#, r#"Err(InvalidDigit)"#),
        (r#"9999999999999999999999999999999999"#, r#"Err(Overflow)"#, r#"Ok("9999999999999999999999999999999999")"#, r#"Ok("9999999999999999999999999999999999")"#),
        (r#"99999999999999999999999999999999999x"#, r#"Err(InvalidDigit)"#, r#"Err(InvalidDigit)"#, r#"Err(InvalidDigit)"#),
        (r#"99999999999999999999999999999999999.9999x"#, r#"Err(Overflow)"#, r#"Err(InvalidDigit)"#, r#"Err(InvalidDigit)"#),
        (r#"99999999999999999999999999999999999"#, r#"Err(Overflow)"#, r#"Err(Overflow)"#, r#"Ok("99999999999999999999999999999999999")"#),
        (r#"9999999999999999999999999999999999999x"#, r#"Err(InvalidDigit)"#, r#"Err(InvalidDigit)"#, r#"Err(InvalidDigit)"#),
        (r#"9999999999999999999999999999999999999.9999x"#, r#"Err(Overflow)"#, r#"Err(InvalidDigit)"#, r#"Err(InvalidDigit)"#),
        (r#"9999999999999999999999999999999999999"#, r#"Err(Overflow)"#, r#"Err(Overflow)"#, r#"Ok("9999999999999999999999999999999999999")"#),
        (r#"99999999999999999999999999999999999999x"#, r#"Err(Overflow)"#, r#"Err(InvalidDigit)"#, r#"Err(InvalidDigit)"#),
        (r#"99999999999999999999999999999999999999.9999x"#, r#"Err(Overflow)"#, r#"Err(InvalidDigit)"#, r#"Err(InvalidDigit)"#),
        (r#"99999999999999999999999999999999999999"#, r#"Err(Overflow)"#, r#"Err(Overflow)"#, r#"Ok("99999999999999999999999999999999999999")"#),
        (r#"999999999999999999999999999999999999999x"#, r#"Err(Overflow)"#, r#"Err(InvalidDigit)"#, r#"Err(InvalidDigit)"#),
        (r#"999999999999999999999999999999999999999.9999x"#, r#"Err(Overflow)"#, r#"Err(InvalidDigit)"#, r#"Err(InvalidDigit)"#),
        (r#"999999999999999999999999999999999999999"#, r#"Err(Overflow)"#, r#"Err(Overflow)"#, r#"Ok("999999999999999999999999999999999999999")"#),
        (r#"9999999999999999999999999999999999999999x"#, r#"Err(Overflow)"#, r#"Err(InvalidDigit)"#, r#"Err(InvalidDigit)"#),
        (r#"9999999999999999999999999999999999999999.9999x"#, r#"Err(Overflow)"#, r#"Err(InvalidDigit)"#, r#"Err(InvalidDigit)"#),
        (r#"9999999999999999999999999999999999999999"#, r#"Err(Overflow)"#, r#"Err(Overflow)"#, r#"Ok("9999999999999999999999999999999999999999")"#),
        (r#"999999999999999999999999999999999999999999999999999999999x"#, r#"Err(Overflow)"#, r#"Err(Overflow)"#, r#"Err(InvalidDigit)"#),
        (r#"999999999999999999999999999999999999999999999999999999999.9999x"#, r#"Err(Overflow)"#, r#"Err(Overflow)"#, r#"Err(InvalidDigit)"#),
        (r#"999999999999999999999999999999999999999999999999999999999"#, r#"Err(Overflow)"#, r#"Err(Overflow)"#, r#"Ok("999999999999999999999999999999999999999999999999999999999")"#),
        (r#"9999999999999999999999999999999999999999999999999999999999x"#, r#"Err(Overflow)"#, r#"Err(Overflow)"#, r#"Err(InvalidDigit)"#),
        (r#"9999999999999999999999999999999999999999999999999999999999.9999x"#, r#"Err(Overflow)"#, r#"Err(Overflow)"#, r#"Err(InvalidDigit)"#),
        (r#"9999999999999999999999999999999999999999999999999999999999"#, r#"Err(Overflow)"#, r#"Err(Overflow)"#, r#"Ok("9999999999999999999999999999999999999999999999999999999999")"#),
        (r#"9999999999999999999999999999999999999999999999999999999999999999999999999999x"#, r#"Err(Overflow)"#, r#"Err(Overflow)"#, r#"Err(InvalidDigit)"#),
        (r#"9999999999999999999999999999999999999999999999999999999999999999999999999999.9999x"#, r#"Err(Overflow)"#, r#"Err(Overflow)"#, r#"Err(InvalidDigit)"#),
        (r#"9999999999999999999999999999999999999999999999999999999999999999999999999999"#, r#"Err(Overflow)"#, r#"Err(Overflow)"#, r#"Err(Overflow)"#),
        (r#"99999999999999999999999999999999999999999999999999999999999999999999999999999x"#, r#"Err(Overflow)"#, r#"Err(Overflow)"#, r#"Err(InvalidDigit)"#),
        (r#"99999999999999999999999999999999999999999999999999999999999999999999999999999.9999x"#, r#"Err(Overflow)"#, r#"Err(Overflow)"#, r#"Err(InvalidDigit)"#),
        (r#"99999999999999999999999999999999999999999999999999999999999999999999999999999"#, r#"Err(Overflow)"#, r#"Err(Overflow)"#, r#"Err(Overflow)"#),
        (r#"999999999999999999999999999999999999999999999999999999999999999999999999999999x"#, r#"Err(Overflow)"#, r#"Err(Overflow)"#, r#"Err(InvalidDigit)"#),
        (r#"999999999999999999999999999999999999999999999999999999999999999999999999999999.9999x"#, r#"Err(Overflow)"#, r#"Err(Overflow)"#, r#"Err(InvalidDigit)"#),
        (r#"999999999999999999999999999999999999999999999999999999999999999999999999999999"#, r#"Err(Overflow)"#, r#"Err(Overflow)"#, r#"Err(Overflow)"#),
];

#[test]
fn flush_cadence_error_identity_is_stable() {
    let mut bad = Vec::new();
    for &(input, e64, e128, e256) in CADENCE {
        let got64 = render(Amount64::from_str(input).map(|v| v.to_string()));
        let got128 = render(Amount128::from_str(input).map(|v| v.to_string()));
        let got256 = render(Amount256::from_str(input).map(|v| v.to_string()));
        if got64 != e64 {
            bad.push(format!("Amount64  {input:?}: expected {e64}, got {got64}"));
        }
        if got128 != e128 {
            bad.push(format!(
                "Amount128 {input:?}: expected {e128}, got {got128}"
            ));
        }
        if got256 != e256 {
            bad.push(format!(
                "Amount256 {input:?}: expected {e256}, got {got256}"
            ));
        }
    }
    assert!(
        bad.is_empty(),
        "flush cadence changed the observable error identity on {} case(s):\n{}",
        bad.len(),
        bad.join("\n")
    );
}
