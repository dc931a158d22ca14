use ast_builders::number::float_literal;

#[test]
fn decimal_literals_are_accepted() {
    for text in [
        "0", "1", "007", "3.14", "-273.15", "+1", "1.", ".5", "-.5", "5.e3", "1e10", "1E10",
        "1e+10", "1e-10", "2.5E-3", "-0.0", "123456789012345678901234567890",
    ] {
        assert!(float_literal(text), "{:?}", text);
    }
}

#[test]
fn special_words_are_accepted_in_any_case() {
    for text in [
        "inf", "INF", "Inf", "+inf", "-inf", "infinity", "Infinity", "-INFINITY", "nan", "NaN",
        "+NAN", "-nan",
    ] {
        assert!(float_literal(text), "{:?}", text);
    }
}

#[test]
fn other_text_is_refused() {
    for text in [
        "", "+", "-", ".", "-.", "e", "e5", "1e", "1e+", "1e-", "1e5.0", "1.2.3", "12x", "x12",
        "1 ", " 1", "1_000", "0x10", "--1", "+-1", "1e5e5", "in", "infinit", "infinityy", "na",
        "nanx", "1,5", "١٢٣", "1.5f",
    ] {
        assert!(!float_literal(text), "{:?}", text);
    }
}

#[test]
fn accepted_texts_are_those_the_standard_conversion_takes() {
    let pieces = ["", "+", "-", "1", "23", ".", "e", "E", "inf", "nan", "x", " ", "0"];
    for a in pieces {
        for b in pieces {
            for c in pieces {
                for d in pieces {
                    let text = format!("{}{}{}{}", a, b, c, d);
                    assert_eq!(float_literal(&text), text.parse::<f64>().is_ok(), "{:?}", text);
                }
            }
        }
    }
}
