use orca_iot::decode::parse_reading;
use orca_iot::frame::Reassembler;
use orca_iot::parser::DecodeError;
use orca_iot::parser::Field;
use orca_iot::session::Action;
use orca_iot::session::Event;
use orca_iot::session::Link;
use orca_iot::session::Session;

const MESSAGE: &str = "temperature:27.77pressure:1011.78windspeed:0.00waterlevel:19.01humidity:87.00";

fn num(text: &[u8]) -> f32 {
    std::str::from_utf8(text).unwrap().parse::<f32>().unwrap()
}

fn feed_in_chunks(stream: &[u8], size: usize) -> (Vec<Vec<u8>>, Vec<u8>) {
    let mut r = Reassembler::new(b'$');
    let mut frames = Vec::new();
    for chunk in stream.chunks(size) {
        if let Some(f) = r.append(chunk) {
            frames.push(f);
        }
    }
    (frames, r.buffered().to_vec())
}

#[test]
fn chunking_does_not_change_the_frame() {
    let mut stream = MESSAGE.as_bytes().to_vec();
    stream.push(b'$');
    for size in 1..=stream.len() {
        let (frames, rest) = feed_in_chunks(&stream, size);
        assert_eq!(frames, vec![MESSAGE.as_bytes().to_vec()], "chunk size {size}");
        assert!(rest.is_empty());
    }
}

#[test]
fn empty_chunks_give_nothing() {
    let mut r = Reassembler::new(b'$');
    assert_eq!(r.append(&[]), None);
    assert_eq!(r.append(b"ab"), None);
    assert_eq!(r.append(&[]), None);
    assert_eq!(r.buffered(), b"ab");
    assert_eq!(r.marker(), b'$');
}

#[test]
fn second_marker_waits_for_the_next_call() {
    let mut r = Reassembler::new(b'$');
    assert_eq!(r.append(b"one$two$thr"), Some(b"one".to_vec()));
    assert_eq!(r.buffered(), b"two$thr");
    assert_eq!(r.append(b"ee$"), Some(b"two".to_vec()));
    assert_eq!(r.buffered(), b"three$");
    assert_eq!(r.append(&[]), Some(b"three".to_vec()));
    assert_eq!(r.buffered(), b"");
}

#[test]
fn split_scenario_through_the_reassembler() {
    let data: Vec<u8> = [1, 0, 2, 3, 4, 0, 5, b'$', 6, 0, 7, 8, 9, 0, 10]
        .iter()
        .copied()
        .filter(|&b| b != 0)
        .collect();
    let mut r = Reassembler::new(b'$');
    assert_eq!(r.append(&data), Some(vec![1, 2, 3, 4, 5]));
    assert_eq!(r.buffered(), &[6, 7, 8, 9, 10]);
}

#[test]
fn end_of_stream_forces_the_last_frame() {
    let mut r = Reassembler::new(b'$');
    for chunk in MESSAGE.as_bytes().chunks(7) {
        assert_eq!(r.append(chunk), None);
    }
    let frame = r.finish();
    assert!(r.buffered().is_empty());
    let reading = parse_reading(&frame).unwrap().to_reading();
    assert_eq!(num(&reading.temperature), 27.77);
    assert_eq!(num(&reading.pressure), 1011.78);
    assert_eq!(num(&reading.windspeed), 0.00);
    assert_eq!(num(&reading.waterlevel), 19.01);
    assert_eq!(num(&reading.humidity), 87.00);
}

#[test]
fn clear_drops_buffered_bytes() {
    let mut r = Reassembler::new(b'\n');
    assert_eq!(r.append(b"partial"), None);
    r.clear();
    assert_eq!(r.append(b"x\n"), Some(b"x".to_vec()));
}

#[test]
fn decoding_twice_gives_identical_readings() {
    let first = MESSAGE.as_bytes().to_vec();
    let second = first.clone();
    let a = parse_reading(&first).unwrap().to_reading();
    let b = parse_reading(&second).unwrap().to_reading();
    for (x, y) in [
        (&a.temperature, &b.temperature),
        (&a.pressure, &b.pressure),
        (&a.windspeed, &b.windspeed),
        (&a.waterlevel, &b.waterlevel),
        (&a.humidity, &b.humidity),
    ] {
        assert_eq!(x, y);
        assert_eq!(num(x).to_bits(), num(y).to_bits());
    }
}

#[test]
fn session_connects_reads_and_delivers() {
    let mut s = Session::new(b'$', 1000);
    assert!(matches!(s.start(), Action::Connect { delay_ms: 0 }));
    assert_eq!(s.link(), Link::Disconnected);
    assert!(matches!(s.step(Event::Opened), Action::Read));
    assert_eq!(s.link(), Link::Streaming);
    let bytes = MESSAGE.as_bytes();
    assert!(matches!(s.step(Event::Received(bytes[..10].to_vec())), Action::Read));
    let mut rest = bytes[10..].to_vec();
    rest.extend_from_slice(b"$tem");
    match s.step(Event::Received(rest)) {
        Action::Deliver(Ok(parsed)) => {
            let t = parsed.to_tuple();
            assert_eq!(num(&t.4.1), 87.00);
        }
        _ => panic!("expected a decoded frame"),
    }
}

#[test]
fn session_reports_bad_frames_and_goes_on() {
    let mut s = Session::new(b'$', 250);
    s.step(Event::Opened);
    match s.step(Event::Received(b"pressure:1$".to_vec())) {
        Action::Deliver(Err(e)) => {
            assert_eq!(e, DecodeError::GrammarMismatch { field: Field::Temperature, position: 0 })
        }
        _ => panic!("expected a refused frame"),
    }
    assert_eq!(s.link(), Link::Streaming);
}

#[test]
fn session_drops_the_buffer_on_read_failure() {
    let mut s = Session::new(b'$', 250);
    s.step(Event::Opened);
    assert!(matches!(s.step(Event::Received(b"temperature:1".to_vec())), Action::Read));
    assert!(matches!(s.step(Event::ReadFailed), Action::Connect { delay_ms: 250 }));
    assert_eq!(s.link(), Link::Disconnected);
    assert!(matches!(s.step(Event::OpenFailed), Action::Connect { delay_ms: 250 }));
    assert!(matches!(s.step(Event::Received(b"x$".to_vec())), Action::Connect { delay_ms: 250 }));
    s.step(Event::Opened);
    match s.step(Event::Received(b"$".to_vec())) {
        Action::Deliver(Err(e)) => {
            assert_eq!(e, DecodeError::IncompleteInput { field: Field::Temperature })
        }
        _ => panic!("expected an empty frame"),
    }
}
