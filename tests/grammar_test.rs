use orca_iot::parser::parse;
use orca_iot::decode::parse_reading;
use orca_iot::parser::number;
use orca_iot::parser::reading;
use orca_iot::parser::whitespaces;
use orca_iot::parser::DecodeError;
use orca_iot::parser::Field;

fn num(text: &[u8]) -> f32 {
    std::str::from_utf8(text).unwrap().parse::<f32>().unwrap()
}

const FIELDS: [(&str, &str); 5] = [
    ("temperature", "27.77"),
    ("pressure", "1011.78"),
    ("windspeed", "0.00"),
    ("waterlevel", "19.01"),
    ("humidity", "87.00"),
];

fn message(order: &[usize]) -> String {
    order.iter().map(|&k| format!("{}:{}", FIELDS[k].0, FIELDS[k].1)).collect()
}

#[test]
fn whitespace_around_a_field_is_ignored() {
    for text in ["temperature:34.97", "  temperature : 34.97  ", "\ntemperature\n:\n34.97\n"] {
        let input = text.as_bytes();
        let t = reading(input, 0, Field::Temperature).unwrap();
        assert_eq!(t.next, input.len());
        assert_eq!(&input[t.start..t.end], b"34.97");
        assert_eq!(num(&input[t.start..t.end]), 34.97);
    }
}

#[test]
fn swapped_fields_are_a_grammar_mismatch() {
    for i in 0..5 {
        for j in (i + 1)..5 {
            let mut order = [0, 1, 2, 3, 4];
            order.swap(i, j);
            let text = message(&order);
            match parse_reading(text.as_bytes()) {
                Err(DecodeError::GrammarMismatch { field, .. }) => assert_eq!(field.index(), i),
                _ => panic!("swap {i} {j} was not refused"),
            }
        }
    }
}

#[test]
fn a_missing_field_fails() {
    for k in 0..5 {
        let order: Vec<usize> = (0..5).filter(|&m| m != k).collect();
        let text = message(&order);
        assert!(parse(text.as_bytes()).is_err(), "without field {k}");
    }
    let text = message(&[0, 1, 2, 3]);
    assert_eq!(
        parse(text.as_bytes()).err(),
        Some(DecodeError::IncompleteInput { field: Field::Humidity })
    );
}

#[test]
fn trailing_text_fails() {
    let text = message(&[0, 1, 2, 3, 4]);
    let with_tail = format!("{text}x");
    assert_eq!(
        parse(with_tail.as_bytes()).err(),
        Some(DecodeError::GrammarMismatch { field: Field::Humidity, position: text.len() })
    );
    let with_space = format!("{text} \t\r\n");
    assert!(parse(with_space.as_bytes()).is_ok());
}

#[test]
fn truncated_keyword_is_incomplete() {
    assert_eq!(
        parse(b"temperature:1pressure:2windspeed:3waterlevel:4humi").err(),
        Some(DecodeError::IncompleteInput { field: Field::Humidity })
    );
    assert_eq!(
        parse(b"temperature:").err(),
        Some(DecodeError::IncompleteInput { field: Field::Temperature })
    );
    assert_eq!(
        parse(b"temperatura:1").err(),
        Some(DecodeError::GrammarMismatch { field: Field::Temperature, position: 10 })
    );
    assert_eq!(
        parse(b"temperature 1").err(),
        Some(DecodeError::GrammarMismatch { field: Field::Temperature, position: 12 })
    );
}

#[test]
fn invalid_utf8_is_an_encoding_error() {
    assert_eq!(parse_reading(&[0xff, 0xfe]).err(), Some(DecodeError::InvalidEncoding));
    let mut bytes = message(&[0, 1, 2, 3, 4]).into_bytes();
    bytes.push(0xc3);
    assert_eq!(parse_reading(&bytes).err(), Some(DecodeError::InvalidEncoding));
    // Valid UTF-8 that breaks the grammar is not an encoding error.
    assert_eq!(
        parse_reading("é".as_bytes()).err(),
        Some(DecodeError::GrammarMismatch { field: Field::Temperature, position: 0 })
    );
}

#[test]
fn number_forms() {
    assert_eq!(number(b"12", 0), Ok(2));
    assert_eq!(number(b"-12.5", 0), Ok(5));
    assert_eq!(number(b"+.5", 0), Ok(3));
    assert_eq!(number(b"7.", 0), Ok(2));
    assert_eq!(number(b"1e5", 0), Ok(3));
    assert_eq!(number(b"1.5E-3x", 0), Ok(6));
    assert_eq!(number(b"1e", 0), Ok(1));
    assert_eq!(number(b"1e+", 0), Ok(1));
    assert_eq!(number(b"-", 0), Err(1));
    assert_eq!(number(b".", 0), Err(1));
    assert_eq!(number(b"x", 0), Err(0));
    assert_eq!(number(b"a12", 1), Ok(3));
}

#[test]
fn exponent_values_parse() {
    let text = "temperature:-1.5e2pressure:+3windspeed:.5waterlevel:2.humidity:1E1";
    let r = parse(text.as_bytes()).unwrap().to_reading();
    assert_eq!(
        [num(&r.temperature), num(&r.pressure), num(&r.windspeed), num(&r.waterlevel), num(&r.humidity)],
        [-150.0, 3.0, 0.5, 2.0, 10.0]
    );
}

#[test]
fn whitespaces_stops_at_text() {
    assert_eq!(whitespaces(b" \t\r\nx ", 0), 4);
    assert_eq!(whitespaces(b"x", 0), 0);
    assert_eq!(whitespaces(b"  ", 1), 2);
}

#[test]
fn fields_know_their_keywords() {
    for k in 0..5 {
        let f = Field::from_index(k);
        assert_eq!(f.index(), k);
        assert_eq!(f.name(), FIELDS[k].0);
        assert_eq!(f.keyword(), FIELDS[k].0.as_bytes().to_vec());
    }
}
