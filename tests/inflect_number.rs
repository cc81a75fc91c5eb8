use rust_arxiv_podcast::inflect_number::{convert_number, normalize_number, InflectError};

#[test]
fn generics_for_all_integer_types_work() {
    assert_eq!("eight", convert_number(8));
    assert_eq!("minus eight", convert_number(-8));
    assert_eq!("sixteen", convert_number(16));
    assert_eq!("minus sixteen", convert_number(-16));
    assert_eq!("thirty two", convert_number(32));
    assert_eq!("minus thirty two", convert_number(-32));
    assert_eq!("sixty four", convert_number(64));
    assert_eq!("minus sixty four", convert_number(-64));
}

#[test]
fn positive_integers() {
    assert_eq!("twenty one", convert_number(21));
    assert_eq!("thirty five", convert_number(35));
    assert_eq!("forty four", convert_number(44));
    assert_eq!("fifty five", convert_number(55));
    assert_eq!("sixty six", convert_number(66));

    assert_eq!("nine thousand", convert_number(9_000));
    assert_eq!("ten million", convert_number(10_000_000));
    assert_eq!("sixty billion", convert_number(60_000_000_000));
    assert_eq!("four hundred forty four trillion", convert_number(444_000_000_000_000));
}

#[test]
fn negative_integers() {
    assert_eq!("minus one", convert_number(-1));
    assert_eq!("minus nine thousand one", convert_number(-9_001));
    assert_eq!("minus four hundred forty four trillion", convert_number(-444_000_000_000_000));
}

#[test]
fn normalize_number_test() {
    let text = normalize_number("I have $250 in my pocket.").unwrap();
    assert_eq!("I have two hundred fifty dollars in my pocket.", text.as_str());

    let text = normalize_number("I have increase my weight by 0.50 kg.").unwrap();
    assert_eq!("I have increase my weight by zero point fifty kg.", text.as_str());

    let text = normalize_number("I finished 5th overall").unwrap();
    assert_eq!("I finished fifth overall", text.as_str());

    let text = normalize_number("I finished 6th overall").unwrap();
    assert_eq!("I finished sixth overall", text.as_str());
}

#[test]
fn convert_zero_teens_and_hundreds() {
    assert_eq!("zero", convert_number(0));
    assert_eq!("nineteen", convert_number(19));
    assert_eq!("twenty", convert_number(20));
    assert_eq!("one hundred", convert_number(100));
    assert_eq!("nine hundred ninety nine", convert_number(999));
    assert_eq!("one thousand one hundred one", convert_number(1_101));
}

#[test]
fn convert_extremes() {
    assert_eq!(
        "nine quintillion two hundred twenty three quadrillion three hundred seventy two trillion \
         thirty six billion eight hundred fifty four million seven hundred seventy five thousand \
         eight hundred seven",
        convert_number(i64::MAX)
    );
    assert_eq!(
        "minus nine quintillion two hundred twenty three quadrillion three hundred seventy two \
         trillion thirty six billion eight hundred fifty four million seven hundred seventy five \
         thousand eight hundred eight",
        convert_number(i64::MIN)
    );
    assert_eq!("one quintillion", convert_number(1_000_000_000_000_000_000));
}

#[test]
fn convert_sign_round_trip() {
    for n in [1i64, 7, 13, 40, 99, 100, 512, 1_000, 70_007, 123_456_789, 999_999_999_999_999_999] {
        assert_eq!(format!("minus {}", convert_number(n)), convert_number(-n));
    }
}

#[test]
fn normalize_dollars_and_cents() {
    assert_eq!(normalize_number("$2.50").unwrap(), "two dollars fifty cents ");
    assert_eq!(normalize_number("$0.05").unwrap(), "five cents");
    assert_eq!(normalize_number("$0").unwrap(), "zero dollars");
    assert_eq!(normalize_number("$007").unwrap(), "seven dollars");
    assert_eq!(normalize_number("$1.2.3").unwrap(), "one point two.three dollars");
}

#[test]
fn normalize_grouped_digits_and_pounds() {
    assert_eq!(normalize_number("1,000,000 people").unwrap(), "one million people");
    assert_eq!(normalize_number("\u{a3}1,500").unwrap(), "one thousand five hundred pounds");
    assert_eq!(normalize_number("a, b").unwrap(), "a, b");
}

#[test]
fn normalize_short_ordinals() {
    assert_eq!(normalize_number("1st 2nd 3rd").unwrap(), "first second third");
    assert_eq!(normalize_number("21st").unwrap(), "twenty onest");
}

#[test]
fn normalize_parsing_errors() {
    assert!(matches!(normalize_number("$.5"), Err(InflectError::ParsingError)));
    assert!(matches!(normalize_number("$99999999999"), Err(InflectError::ParsingError)));
    assert!(matches!(normalize_number("99999999999999999999"), Err(InflectError::ParsingError)));
    assert!(matches!(normalize_number("99999999999999999999th"), Err(InflectError::ParsingError)));
}

#[test]
fn normalize_without_numbers_is_unchanged() {
    assert_eq!(normalize_number("").unwrap(), "");
    assert_eq!(normalize_number("no digits here.").unwrap(), "no digits here.");
}
