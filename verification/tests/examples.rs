use surp_core::decoder::Decoder;
use surp_core::encoder::Encoder;
use surp_core::text::{parse, pretty_print, TextValue};
use surp_core::value::Value;

fn literal_of(f: f64) -> TextValue {
    if f.is_nan() {
        TextValue::Float("NaN".to_string())
    } else if f.is_infinite() {
        TextValue::Float(if f < 0.0 { "-inf" } else { "inf" }.to_string())
    } else {
        TextValue::Float(format!("{f}"))
    }
}

fn binary_value(v: &TextValue) -> Value {
    match v {
        TextValue::Null => Value::Null,
        TextValue::Bool(b) => Value::Bool(*b),
        TextValue::UInt(n) => Value::UInt(*n),
        TextValue::Int(n) => Value::Int(*n),
        TextValue::Float(t) => Value::Float(t.parse::<f64>().unwrap().to_bits()),
        TextValue::Str(x) => Value::Str(x.clone()),
        TextValue::Bytes(b) => Value::Bytes(b.clone()),
        TextValue::Array(items) => Value::Array(items.iter().map(binary_value).collect()),
        TextValue::Object(fs) => Value::Object(fs.iter().map(|(k, v)| (k.clone(), binary_value(v))).collect()),
    }
}

fn text_value(v: &Value) -> TextValue {
    match v {
        Value::Null => TextValue::Null,
        Value::Bool(b) => TextValue::Bool(*b),
        Value::UInt(n) => TextValue::UInt(*n),
        Value::Int(n) => TextValue::Int(*n),
        Value::Float(bits) => literal_of(f64::from_bits(*bits)),
        Value::Str(x) => TextValue::Str(x.clone()),
        Value::Bytes(b) => TextValue::Bytes(b.clone()),
        Value::Array(items) => TextValue::Array(items.iter().map(text_value).collect()),
        Value::Object(fs) => TextValue::Object(fs.iter().map(|(k, v)| (k.clone(), text_value(v))).collect()),
    }
}

/// Text, then binary, then text again, checking each step.
fn full_roundtrip(input: &str) -> (TextValue, Vec<u8>, String) {
    let val = parse(input).expect("parse failed");

    let mut enc = Encoder::new();
    enc.encode_value(&binary_value(&val)).expect("encode failed");
    let binary = enc.finish().expect("finish failed");

    let mut dec = Decoder::new(&binary);
    let decoded = text_value(&dec.decode_next().expect("decode failed").to_owned_value());
    assert_eq!(val, decoded, "roundtrip mismatch");

    let text_out = pretty_print(&decoded, 4);

    let re_parsed = parse(&text_out).expect("re-parse failed");
    assert_eq!(val, re_parsed, "text roundtrip mismatch");

    (val, binary, text_out)
}

fn hex_string(data: &[u8]) -> String {
    data.iter().map(|b| format!("{b:02x}")).collect::<Vec<_>>().join(" ")
}

#[test]
fn example_1_person() {
    let input = r#"{
        name: "Alice";
        age: 30;
        active: true;
    }"#;
    let json_equiv = r#"{"name":"Alice","age":30,"active":true}"#;
    let (_val, binary, text) = full_roundtrip(input);
    println!("Surp text:\n{text}");
    println!("Binary ({} bytes): {}", binary.len(), hex_string(&binary));
    println!("JSON equiv ({} bytes): {json_equiv}", json_equiv.len());
}

#[test]
fn example_2_nested_users() {
    let input = r#"{
        users: [
            {
                name: "Bob";
                scores: [100, 95, 87];
            },
            {
                name: "Carol";
                scores: [88, 92, 79];
            }
        ];
        count: 2;
    }"#;
    let (_, binary, text) = full_roundtrip(input);
    println!("Surp text:\n{text}");
    println!("Binary ({} bytes): {}", binary.len(), hex_string(&binary));
}

#[test]
fn example_3_binary_data() {
    let input = r#"{
        id: 42;
        label: "sensor-alpha";
        reading: 23.456;
        raw: b64#AQIDBA==;
        enabled: false;
    }"#;
    let (_, binary, text) = full_roundtrip(input);
    println!("Surp text:\n{text}");
    println!("Binary ({} bytes): {}", binary.len(), hex_string(&binary));
}

#[test]
fn example_4_deep_config() {
    let input = r#"{
        server: {
            host: "0.0.0.0";
            port: 8080;
            tls: {
                enabled: true;
                cert: "/etc/ssl/cert.pem";
                key: "/etc/ssl/key.pem";
            };
        };
        database: {
            url: "postgres://localhost/mydb";
            pool_size: 10;
        };
    }"#;
    let (_, binary, text) = full_roundtrip(input);
    println!("Surp text:\n{text}");
    println!("Binary ({} bytes): {}", binary.len(), hex_string(&binary));
}

#[test]
fn example_5_mixed_array() {
    let input = r#"{
        measurements: [
            -40,
            0,
            23,
            100,
            3.14,
            -273.15,
            null,
            true,
            "overflow"
        ];
        unit: "celsius";
        timestamp: 1708876800;
    }"#;
    let (_, binary, text) = full_roundtrip(input);
    println!("Surp text:\n{text}");
    println!("Binary ({} bytes): {}", binary.len(), hex_string(&binary));
}
