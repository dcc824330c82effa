use orca_iot::parser::parse;
use orca_iot::parser::consume;
use orca_iot::parser::keyword;
use orca_iot::parser::reading;
use orca_iot::parser::readings;
use orca_iot::parser::value;
use orca_iot::parser::whitespace;
use orca_iot::parser::Field;

fn num(text: &[u8]) -> f32 {
    std::str::from_utf8(text).unwrap().parse::<f32>().unwrap()
}

#[test]
fn test_whitespace_parser() {
    let cases = [' ', '\t', '\n'];

    for c in cases {
        let s = c.to_string();
        assert_eq!(whitespace(s.as_bytes(), 0), Some(c as u8));
    }
}

#[test]
fn test_value_parser() {
    let cases = [
        "1000",
        "  1000",
        "1000 ",
        "\t1000",
        "1000\t",
        "\n1000",
        "1000\n",
        "  1000",
        "1000  ",
        "\n\n1000",
        "1000\n\n",
        "\t\t1000",
        "1000\t\t",
        " \t\n1000",
        "1000\t\n ",
        " \t\n1000\t\n ",
    ];

    for c in cases {
        let input = c.as_bytes();
        let t = value(input, 0).unwrap();
        assert_eq!(t.next, input.len());
        assert_eq!(num(&input[t.start..t.end]), 1000.0);
    }
}

#[test]
fn test_keyword_parser() {
    let cases = [
        "humidity",
        " humidity",
        "humidity ",
        " humidity ",
        "\nhumidity",
        "humidity\n",
        "\nhumidity\n",
        "\thumidity",
        "humidity\t",
        " \n\thumidity\t\n ",
    ];

    for c in cases {
        assert_eq!(keyword(c.as_bytes(), 0, Field::Humidity), Ok(c.len()));
    }
}

#[test]
fn test_reading_parser() {
    let cases = [
        "humidity:70",
        " humidity:70",
        "humidity :70",
        " humidity :70",
        "\nhumidity:70",
        "humidity\n:70",
        "\nhumidity\n:70",
        "\thumidity:70",
        "humidity\t:70",
        " \n\thumidity\t\n :70",
        " humidity: 70 ",
        "humidity :70 ",
        " humidity : 70 ",
        "\nhumidity:\n70",
        "humidity\n:70\n",
        "\nhumidity\n:\n70\n",
        "\thumidity:\t70",
        "humidity\t:70\t",
        " \n\thumidity\t\n : \n\t70\t\n ",
    ];

    for c in cases {
        let input = c.as_bytes();
        let t = reading(input, 0, Field::Humidity).unwrap();
        assert_eq!(t.next, input.len());
        assert_eq!(Field::Humidity.name(), "humidity");
        assert_eq!(num(&input[t.start..t.end]), 70.0);
    }
}

#[test]
fn test_readings_parser() {
    let input = "

        temperature:
            34.97


        pressure:
            100384.0
        
        windspeed:
            0.0

        waterlevel:
            96.68

        humidity:
            66.0
        
        ";
    let bytes = input.as_bytes();
    let spans = readings(bytes, 0).unwrap();
    let values: Vec<f32> = spans.iter().map(|sp| num(&bytes[sp.start..sp.end])).collect();
    assert_eq!(values, vec![34.97, 100384.0, 0.0, 96.68, 66.0]);

    let t = parse(bytes).unwrap().to_tuple();
    assert_eq!(
        [t.0.0.name(), t.1.0.name(), t.2.0.name(), t.3.0.name(), t.4.0.name()],
        ["temperature", "pressure", "windspeed", "waterlevel", "humidity"]
    );
}

#[test]
fn test_eof() {
    let inp = "temperature:27.77pressure:1011.78windspeed:0.00waterlevel:19.01humidity:87.00";
    let bytes = inp.as_bytes();

    let spans = consume(bytes).unwrap();
    let values: Vec<f32> = spans.iter().map(|sp| num(&bytes[sp.start..sp.end])).collect();
    assert_eq!(values, vec![27.77, 1011.78, 0.00, 19.01, 87.00]);

    let t = parse(bytes).unwrap().to_tuple();
    assert_eq!(
        (t.0.0, num(&t.0.1), t.1.0, num(&t.1.1), t.2.0, num(&t.2.1)),
        (Field::Temperature, 27.77, Field::Pressure, 1011.78, Field::Windspeed, 0.00)
    );
    assert_eq!(
        (t.3.0, num(&t.3.1), t.4.0, num(&t.4.1)),
        (Field::Waterlevel, 19.01, Field::Humidity, 87.00)
    );
}
