use zpowergraph::codec::{decode, encode};
use zpowergraph::errors::DecodeError;
use zpowergraph::reading::{Device, Milli, Response};

fn payload(s: &str) -> Vec<u8> {
    s.as_bytes().to_vec()
}

fn minimal(name: &str) -> String {
    format!(
        "{{\"current\":1.2,\"device\":{{\"friendlyName\":\"{}\"}},\"energy\":10.0,\"power\":264,\"voltage\":220}}",
        name
    )
}

#[test]
fn decode_minimal_reading() {
    let r = decode(&payload(&minimal("plug_a"))).unwrap();
    assert_eq!(r.current, Milli(1200));
    assert_eq!(r.energy, Milli(10000));
    assert_eq!(r.power, 264);
    assert_eq!(r.voltage, 220);
    assert_eq!(r.device.friendly_name, b"plug_a".to_vec());
    assert!(r.child_lock.is_none());
    assert!(r.state.is_none());
    assert!(r.device.ieee_addr.is_none());
}

#[test]
fn decode_full_reading() {
    let text = "{\"child_lock\":\"UNLOCK\",\"current\":0.045,\"device\":{\"friendlyName\":\"desk plug\",\"ieeeAddr\":\"0x00158d0005a8\",\"manufacturerID\":4098,\"manufacturerName\":\"TuYa\",\"model\":\"TS011F\"},\"energy\":3.25,\"power\":7,\"state\":\"ON\",\"voltage\":231}";
    let r = decode(&payload(text)).unwrap();
    assert_eq!(r.child_lock, Some(b"UNLOCK".to_vec()));
    assert_eq!(r.current, Milli(45));
    assert_eq!(r.energy, Milli(3250));
    assert_eq!(r.power, 7);
    assert_eq!(r.voltage, 231);
    assert_eq!(r.state, Some(b"ON".to_vec()));
    assert_eq!(r.device.friendly_name, b"desk plug".to_vec());
    assert_eq!(r.device.ieee_addr, Some(b"0x00158d0005a8".to_vec()));
    assert_eq!(r.device.manufacturer_id, Some(4098));
    assert_eq!(r.device.manufacturer_name, Some(b"TuYa".to_vec()));
    assert_eq!(r.device.model, Some(b"TS011F".to_vec()));
}

#[test]
fn encode_then_decode_round_trip() {
    let r = Response {
        child_lock: Some(b"LOCK".to_vec()),
        current: Milli(1200),
        device: Device {
            friendly_name: b"plug_a".to_vec(),
            ieee_addr: Some(b"0xdeadbeef".to_vec()),
            manufacturer_id: Some(4098),
            manufacturer_name: Some(b"TuYa".to_vec()),
            model: Some(b"TS011F".to_vec()),
        },
        energy: Milli(10000),
        power: 264,
        state: Some(b"ON".to_vec()),
        voltage: 220,
    };
    let bytes = encode(&r);
    let back = decode(&bytes).unwrap();
    assert_eq!(back.child_lock, r.child_lock);
    assert_eq!(back.current, r.current);
    assert_eq!(back.energy, r.energy);
    assert_eq!(back.power, r.power);
    assert_eq!(back.state, r.state);
    assert_eq!(back.voltage, r.voltage);
    assert_eq!(back.device.friendly_name, r.device.friendly_name);
    assert_eq!(back.device.ieee_addr, r.device.ieee_addr);
    assert_eq!(back.device.manufacturer_id, r.device.manufacturer_id);
    assert_eq!(back.device.manufacturer_name, r.device.manufacturer_name);
    assert_eq!(back.device.model, r.device.model);
}

#[test]
fn encode_then_decode_round_trip_no_options() {
    let r = Response {
        child_lock: None,
        current: Milli(0),
        device: Device {
            friendly_name: b"p".to_vec(),
            ieee_addr: None,
            manufacturer_id: None,
            manufacturer_name: None,
            model: None,
        },
        energy: Milli(999),
        power: 0,
        state: None,
        voltage: 65535,
    };
    let bytes = encode(&r);
    assert_eq!(
        String::from_utf8(bytes.clone()).unwrap(),
        "{\"current\":0,\"device\":{\"friendlyName\":\"p\"},\"energy\":0.999,\"power\":0,\"voltage\":65535}"
    );
    let back = decode(&bytes).unwrap();
    assert_eq!(back.current, r.current);
    assert_eq!(back.energy, r.energy);
    assert_eq!(back.voltage, r.voltage);
    assert_eq!(back.device.friendly_name, r.device.friendly_name);
}

#[test]
fn decode_missing_required_field_fails() {
    // no power
    let text = "{\"current\":1.2,\"device\":{\"friendlyName\":\"a\"},\"energy\":10.0,\"voltage\":220}";
    assert!(matches!(decode(&payload(text)), Err(DecodeError)));
}

#[test]
fn decode_wrong_type_fails() {
    // power given as a string, not a number
    let text = "{\"current\":1.2,\"device\":{\"friendlyName\":\"a\"},\"energy\":10.0,\"power\":\"x\",\"voltage\":220}";
    assert!(matches!(decode(&payload(text)), Err(DecodeError)));
}

#[test]
fn decode_not_an_object_fails() {
    assert!(matches!(decode(&payload("")), Err(DecodeError)));
    assert!(matches!(decode(&payload("42")), Err(DecodeError)));
    assert!(matches!(decode(&payload("[1,2]")), Err(DecodeError)));
}

#[test]
fn decode_truncated_fails() {
    let whole = minimal("a");
    for cut in 1..whole.len() {
        let mut part = whole.as_bytes().to_vec();
        part.truncate(cut);
        assert!(matches!(decode(&part), Err(DecodeError)));
    }
}

#[test]
fn decode_trailing_garbage_fails() {
    let text = format!("{} ", minimal("a"));
    assert!(matches!(decode(&payload(&text)), Err(DecodeError)));
}

#[test]
fn decode_empty_device_name_fails() {
    let text = minimal("");
    assert!(matches!(decode(&payload(&text)), Err(DecodeError)));
}

#[test]
fn decode_power_out_of_range_fails() {
    let text = "{\"current\":1.2,\"device\":{\"friendlyName\":\"a\"},\"energy\":10.0,\"power\":70000,\"voltage\":220}";
    assert!(matches!(decode(&payload(text)), Err(DecodeError)));
}

#[test]
fn decode_too_many_fraction_digits_fails() {
    let text = "{\"current\":1.2345,\"device\":{\"friendlyName\":\"a\"},\"energy\":10.0,\"power\":264,\"voltage\":220}";
    assert!(matches!(decode(&payload(text)), Err(DecodeError)));
}

#[test]
fn decode_accepts_equivalent_decimals() {
    // 10 and 10.0 and 10.00 all denote the same energy
    for energy in ["10", "10.0", "10.00", "10.000"] {
        let text = format!(
            "{{\"current\":1.2,\"device\":{{\"friendlyName\":\"a\"}},\"energy\":{},\"power\":264,\"voltage\":220}}",
            energy
        );
        let r = decode(&payload(&text)).unwrap();
        assert_eq!(r.energy, Milli(10000));
    }
}

#[test]
fn decode_requires_canonical_field_order() {
    // the wire format is canonical: the same fields in another order are
    // rejected, and a producer of foreign JSON canonicalizes first
    let text = "{\"device\":{\"friendlyName\":\"a\"},\"current\":1.2,\"energy\":10.0,\"power\":264,\"voltage\":220}";
    assert!(matches!(decode(&payload(text)), Err(DecodeError)));
}
