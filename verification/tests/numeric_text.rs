use teamy_bend::numeric_text::{binary_exponent, decimal, read};
use teamy_bend::parser::FloatSyntax;

struct HostFloats;

impl FloatSyntax for HostFloats {
    fn parse_f32(&self, text: &str) -> Result<u32, String> {
        text.parse::<f32>().map(f32::to_bits).map_err(|e| e.to_string())
    }
}

fn read_text(input: &str) -> Option<u32> {
    read(input, &HostFloats, false)
}

#[test]
fn native_float_text_matches_c_decimal_hex_and_nul_boundaries() {
    for (input, expected) in [
        ("", None),
        ("\0", Some(0)),
        ("\0garbage", Some(0)),
        ("garbage", None),
        (" ", None),
        ("\t\n 1.5", Some(1_069_547_520)),
        ("1.5 ", None),
        ("1.5\n", None),
        ("1.5\0tail", Some(1_069_547_520)),
        ("nan(a-b)", None),
        ("inf", Some(2_139_095_040)),
        ("-infinity", Some(4_286_578_688)),
        ("INFINITY", Some(2_139_095_040)),
        ("0x1.8p+1", Some(1_077_936_128)),
        ("0x1", Some(1_065_353_216)),
        ("0x.8", Some(1_056_964_608)),
        ("0x1p", None),
        ("0x1p-149", Some(1)),
        ("0x1p-150", Some(0)),
        ("0x1.000002p-150", Some(1)),
        ("0x1.fffffep127", Some(2_139_095_039)),
        ("0x1.ffffffp127", Some(2_139_095_040)),
        ("0x1.ffffff00000000000000000001p127", Some(2_139_095_040)),
        ("0x1.fffffdp127", Some(2_139_095_038)),
        ("0x1.000001p0", Some(1_065_353_216)),
        ("0x1.000001000000000000001p0", Some(1_065_353_217)),
        ("0x1.000003p0", Some(1_065_353_218)),
        ("0x1.000003000000000000001p0", Some(1_065_353_218)),
        (".5", Some(1_056_964_608)),
        ("1.", Some(1_065_353_216)),
        ("-0", Some(2_147_483_648)),
        ("1e-9999", Some(0)),
        ("-1e-9999", Some(2_147_483_648)),
        ("1e9999", Some(2_139_095_040)),
        ("-1e9999", Some(4_286_578_688)),
        ("\u{a0}1", None),
        ("0x1.0000000000000001p-150", Some(1)),
        ("0x0.ffffffp-126", Some(8_388_608)),
        ("-0x1p-999999999999999999999", Some(2_147_483_648)),
        ("0x1p999999999999999999999", Some(2_139_095_040)),
        ("0x", None),
        ("0x.p1", None),
        ("0x1.2.3", None),
        ("1e+", None),
        ("+", None),
        ("  \0", None),
        ("1_0", None),
    ] {
        assert_eq!(read_text(input), expected, "{input:?}");
    }
}

#[test]
fn native_float_nan_spelling_uses_the_documented_crt_payload_policy() {
    for (input, payload) in [
        ("nan", 0),
        ("nan()", 0),
        ("nan(1)", 1),
        ("nan(0x123)", 0x123),
        ("NaN(foo)", 0),
    ] {
        let expected = 0x7fc0_0000 | payload;
        assert_eq!(read_text(input), Some(expected));
        assert_eq!(read_text(&format!("-{input}")), Some(expected | 0x8000_0000));
        assert_eq!(read_text(&format!("+{input}")), Some(expected));
    }
}

#[test]
fn microsoft_runtime_nan_sets_every_payload_bit() {
    for input in ["nan", "nan()", "nan(1)", "nan(0x123)", "NaN(foo)"] {
        assert_eq!(read(input, &HostFloats, true), Some(0x7fff_ffff));
        assert_eq!(read(&format!("-{input}"), &HostFloats, true), Some(0xffff_ffff));
    }
    assert_eq!(read("nan(077)", &HostFloats, false), Some(0x7fc0_0000 | 0o77));
}

#[test]
fn binary_exponents_take_a_sign_and_clamp_their_magnitude() {
    let chars = |s: &str| s.chars().collect::<Vec<char>>();
    assert_eq!(binary_exponent(&chars("12")), Some(12));
    assert_eq!(binary_exponent(&chars("-12")), Some(-12));
    assert_eq!(binary_exponent(&chars("+7")), Some(7));
    assert_eq!(binary_exponent(&chars("99999999999")), Some(1_000_000_000));
    assert_eq!(binary_exponent(&chars("-")), None);
    assert_eq!(binary_exponent(&chars("")), None);
    assert_eq!(binary_exponent(&chars("1a")), None);
    assert!(decimal(&chars("1.5e-3")));
    assert!(decimal(&chars(".5")));
    assert!(!decimal(&chars(".")));
    assert!(!decimal(&chars("1e")));
    assert!(!decimal(&chars("")));
}
