//! Weights on their way to another format.

use wisdom::convert::{
    bytes_to_f32, contains_text, convert_record, inject, load_tensors, path_of, prepare, prepare_all,
    transpose_2d, ConvertError, Injection, PathKey, Preparation, Prepared, RawTensor, RecordError,
};
use wisdom::json::Json;
use wisdom::text::chars_of;

#[test]
fn bytes_are_numbers() {
    let mut bytes: Vec<u8> = Vec::new();
    for v in [1.0f32, -2.5, 0.0, f32::MAX] {
        bytes.extend_from_slice(&v.to_le_bytes());
    }
    bytes.push(9);
    let expected: Vec<u32> = [1.0f32, -2.5, 0.0, f32::MAX].iter().map(|v| v.to_bits()).collect();
    assert_eq!(bytes_to_f32(&bytes), expected);
}

#[test]
fn tables_are_transposed() {
    let data = vec![1, 2, 3, 4, 5, 6];
    let once = transpose_2d(&data, 2, 3);
    assert_eq!(once, vec![1, 4, 2, 5, 3, 6]);
    assert_eq!(transpose_2d(&once, 3, 2), data);
    assert_eq!(transpose_2d(&data, 0, 3), Vec::<u32>::new());
}

#[test]
fn texts_are_looked_for() {
    assert!(contains_text(&chars_of("bn1.running_mean"), "running_"));
    assert!(!contains_text(&chars_of("bn1.runnin"), "running_"));
    assert!(contains_text(&chars_of("abab"), "bab"));
    assert!(contains_text(&chars_of("x"), ""));
}

fn tensor(name: &str, shape: Vec<usize>, values: &[f32]) -> RawTensor {
    let data = values.iter().flat_map(|v| v.to_le_bytes()).collect();
    RawTensor { name: name.to_string(), shape, data }
}

fn steps(path: &Vec<PathKey>) -> Vec<String> {
    path.iter()
        .map(|step| match step {
            PathKey::Blocks => "[blocks]".to_string(),
            PathKey::Index { index, .. } => format!("[{}]", index),
            PathKey::Key { key } => key.clone(),
        })
        .collect()
}

#[test]
fn names_become_paths() {
    let path = path_of(&chars_of("res_blocks.10.bn1.weight"));
    assert_eq!(steps(&path), vec!["[blocks]", "[10]", "bn1", "gamma"]);
    assert_eq!(steps(&path_of(&chars_of("bn.bias"))), vec!["bn", "beta"]);
    assert_eq!(steps(&path_of(&chars_of("conv.weight"))), vec!["conv", "weight"]);
}

#[test]
fn statistics_are_dropped() {
    assert!(matches!(prepare(&tensor("bn.running_var", vec![1], &[1.0])), Preparation::Dropped));
    assert!(matches!(
        prepare(&tensor("bn.num_batches_tracked", vec![], &[])),
        Preparation::Dropped
    ));
}

#[test]
fn linear_weights_are_transposed() {
    match prepare(&tensor("fc1.weight", vec![2, 3], &[1.0, 2.0, 3.0, 4.0, 5.0, 6.0])) {
        Preparation::Ready(p) => {
            assert_eq!(p.shape, vec![3, 2]);
            let values: Vec<f32> = p.data.iter().map(|&b| f32::from_bits(b)).collect();
            assert_eq!(values, vec![1.0, 4.0, 2.0, 5.0, 3.0, 6.0]);
        }
        _ => unreachable!(),
    }
    match prepare(&tensor("conv.weight", vec![2, 1], &[1.0, 2.0])) {
        Preparation::Ready(p) => {
            assert_eq!(p.shape, vec![2, 1]);
            assert_eq!(p.data, vec![1.0f32.to_bits(), 2.0f32.to_bits()]);
        }
        _ => unreachable!(),
    }
    assert!(matches!(
        prepare(&tensor("policy_head.weight", vec![2], &[1.0, 2.0])),
        Preparation::Malformed
    ));
    assert!(matches!(
        prepare(&tensor("value_head.weight", vec![2, 2], &[1.0, 2.0])),
        Preparation::Malformed
    ));
}

fn file(header: &str, data: &[u8]) -> Vec<u8> {
    let mut bytes = (header.len() as u64).to_le_bytes().to_vec();
    bytes.extend_from_slice(header.as_bytes());
    bytes.extend_from_slice(data);
    bytes
}

#[test]
fn tensors_are_read_from_a_file() {
    let header = concat_header();
    let mut data = Vec::new();
    data.extend_from_slice(&1.5f32.to_le_bytes());
    data.extend_from_slice(&(-2.0f32).to_le_bytes());
    data.extend_from_slice(&7.0f32.to_le_bytes());
    let mut tensors = load_tensors(&file(&header, &data)).unwrap_or_default();
    tensors.sort_by(|a, b| a.name.cmp(&b.name));
    assert_eq!(tensors.len(), 2);
    assert_eq!((tensors[0].name.as_str(), tensors[0].shape.clone()), ("bias", vec![1]));
    assert_eq!(tensors[0].data, 7.0f32.to_le_bytes().to_vec());
    assert_eq!((tensors[1].name.as_str(), tensors[1].shape.clone()), ("w1234567890123456789", vec![2, 1]));
    assert_eq!(bytes_to_f32(&tensors[1].data), vec![1.5f32.to_bits(), (-2.0f32).to_bits()]);
}

fn concat_header() -> String {
    let first = r#"{"w1234567890123456789":{"dtype":"F32","shape":[2,1],"data_offsets":[0,8]},"#;
    let second = r#""bias":{"dtype":"F32","shape":[1],"data_offsets":[8,12]}}"#;
    format!("{}{}", first, second)
}

#[test]
fn other_files_are_refused() {
    assert!(matches!(load_tensors(&vec![1, 2, 3]), Err(ConvertError::Unreadable)));
    assert!(matches!(load_tensors(&file("{", &[])), Err(ConvertError::Unreadable)));
    assert!(matches!(load_tensors(&vec![255; 20]), Err(ConvertError::Unreadable)));
    let long = r#"{"a":{"dtype":"F32","shape":[1],"data_offsets":[0,18446744073709551612]}}"#;
    assert!(matches!(load_tensors(&file(long, &[])), Err(ConvertError::Unreadable)));
    // Here the end of the data could not be told from the end of the file.
    let late = r#"{"a":{"dtype":"F32","shape":[1],"data_offsets":[ 8 , 18446744073709551612 ]}}"#;
    assert!(matches!(load_tensors(&file(late, &[])), Err(ConvertError::Overflow)));
}

#[test]
fn large_numbers_that_do_no_harm() {
    for shape in ["[0,1000000000000000000]", "[0,18446744073709551615]", "[7,0,18446744073709551615]"] {
        let header =
            format!(r#"{{"a":{{"dtype":"F32","shape":{},"data_offsets":[0,0]}}}}"#, shape);
        let tensors = load_tensors(&file(&header, &[])).unwrap_or_default();
        assert_eq!(tensors.len(), 1);
        assert!(tensors[0].data.is_empty() && tensors[0].shape.len() >= 2);
    }
    let name = "[1,18446744073709551615]";
    let header = format!(r#"{{"{}":{{"dtype":"F32","shape":[0],"data_offsets":[0,0]}}}}"#, name);
    let tensors = load_tensors(&file(&header, &[])).unwrap_or_default();
    assert_eq!(tensors[0].name, name);
}

#[test]
fn only_offsets_are_taken_for_offsets() {
    let seven = 7.0f32.to_le_bytes();
    let noted = r#"{"a":{"dtype":"F32","shape":[1],"note":[1,18446744073709551615],"data_offsets":[0,4]}}"#;
    let tensors = load_tensors(&file(noted, &seven)).unwrap_or_default();
    assert_eq!(tensors.len(), 1);
    assert_eq!(tensors[0].data, seven.to_vec());
    let described = r#"{"__metadata__":{"data_offsets":"[1,18446744073709551615]"},"a":{"dtype":"F32","shape":[1],"data_offsets":[0,4]}}"#;
    let tensors = load_tensors(&file(described, &seven)).unwrap_or_default();
    assert_eq!(tensors.len(), 1);
    assert_eq!(tensors[0].name, "a");
}

#[test]
fn tensors_may_be_described_by_lists() {
    let seven = 7.0f32.to_le_bytes();
    let tensors = load_tensors(&file(r#"{"a":["F32",[1],[0,4]]}"#, &seven)).unwrap_or_default();
    assert_eq!(tensors.len(), 1);
    assert_eq!((tensors[0].shape.clone(), tensors[0].data.clone()), (vec![1], seven.to_vec()));
    let late = r#"{"a":["F32",[1],[8,18446744073709551612]]}"#;
    assert!(matches!(load_tensors(&file(late, &[])), Err(ConvertError::Overflow)));
}

#[test]
fn headers_that_are_no_text_are_refused() {
    let mut bytes = file("{\"a\":1}", &[]);
    bytes[9] = 255;
    assert!(matches!(load_tensors(&bytes), Err(ConvertError::Unreadable)));
}

fn ready(name: &str, shape: Vec<usize>, values: &[f32]) -> Prepared {
    match prepare(&tensor(name, shape, values)) {
        Preparation::Ready(prepared) => prepared,
        _ => unreachable!(),
    }
}

fn texts(values: &[f32]) -> Vec<Option<String>> {
    values
        .iter()
        .map(|&v| serde_json::Number::from_f64(v as f64).map(|n| n.to_string()))
        .collect()
}

#[test]
fn all_tensors_are_prepared_but_the_statistics() {
    let tensors = vec![
        tensor("bn.running_mean", vec![1], &[1.0]),
        tensor("conv.weight", vec![1], &[2.0]),
        tensor("bn.bias", vec![1], &[3.0]),
    ];
    let all = prepare_all(&tensors).unwrap_or_default();
    let names: Vec<&str> = all.iter().map(|p| p.name.as_str()).collect();
    assert_eq!(names, vec!["conv.weight", "bn.bias"]);
    let tensors = vec![
        tensor("conv.weight", vec![1], &[2.0]),
        tensor("fc1.weight", vec![3], &[3.0]),
    ];
    assert!(matches!(prepare_all(&tensors), Err(1)));
}

#[test]
fn a_record_is_filled() {
    let record = concat_record();
    let prepared = vec![
        ready("bn.weight", vec![2], &[0.5, f32::NAN]),
        ready("res_blocks.1.conv1.weight", vec![1, 1], &[-3.0]),
        ready("head.unknown", vec![1], &[1.0]),
        ready("head.0", vec![1], &[0.1]),
    ];
    let numbers =
        vec![texts(&[0.5, f32::NAN]), texts(&[-3.0]), texts(&[1.0]), texts(&[0.1])];
    let (text, placed) = convert_record(&record, &prepared, &numbers).unwrap_or_default();
    assert_eq!(placed, vec![true, true, false, true]);
    let value: serde_json::Value = serde_json::from_str(&text).unwrap();
    assert_eq!(value["bn"]["gamma"]["item"]["value"].to_string(), "[0.5,null]");
    assert_eq!(value["bn"]["gamma"]["item"]["shape"].to_string(), "[2]");
    assert_eq!(value["bn"]["gamma"]["id"].to_string(), "\"x\"");
    let block = &value["res_blocks"][1]["conv1"]["weight"];
    assert_eq!(block.to_string(), r#"{"shape":[1,1],"value":[-3.0]}"#);
    assert_eq!(value["res_blocks"][0].to_string(), "{}");
    assert_eq!(value["head"]["0"].to_string(), r#"{"shape":[1],"value":[0.10000000149011612]}"#);
    assert_eq!(value["kept"].to_string(), r#"[true,false,null,1,-2,12345678901234.5,"a\"b"]"#);
    assert!(text.starts_with("{\n  \"bn\": {\n    \"gamma\": {"));
}

fn concat_record() -> String {
    let bn = r#""bn":{"gamma":{"id":"x","item":{"shape":[9]}}}"#;
    let blocks = r#""res_blocks":[{},{"conv1":{"weight":{}}}]"#;
    let kept = r#""kept":[true,false,null,1,-2,12345678901234.5,"a\"b"]"#;
    format!(r#"{{{},{},{},"head":null}}"#, bn, blocks, kept)
}

#[test]
fn records_that_cannot_be_filled() {
    let prepared = vec![ready("res_blocks.1.w", vec![1], &[1.0])];
    let numbers = vec![texts(&[1.0])];
    let fill = |text: &str| convert_record(text, &prepared, &numbers);
    assert!(matches!(fill("{"), Err(RecordError::Unreadable)));
    // Too few blocks, blocks that are none, and a record that is a list.
    assert!(matches!(fill(r#"{"res_blocks":[{}]}"#), Err(RecordError::Broken(0))));
    assert!(matches!(fill(r#"{"res_blocks":true}"#), Err(RecordError::Broken(0))));
    assert!(matches!(fill("[]"), Err(RecordError::Broken(0))));
    // A missing key is passed over, and what was opened on the way stays open.
    let (text, placed) = fill("{}").unwrap_or_default();
    assert_eq!(placed, vec![false]);
    let value: serde_json::Value = serde_json::from_str(&text).unwrap();
    assert_eq!(value.to_string(), r#"{"res_blocks":{"1":null}}"#);
    // What is no number cannot be written.
    let numbers = vec![vec![Some("seven".to_string())]];
    let record = r#"{"res_blocks":[{},{"w":{}}]}"#;
    assert!(matches!(
        convert_record(record, &prepared, &numbers),
        Err(RecordError::Unwritable)
    ));
}

#[test]
fn a_tensor_is_put_in_its_place() {
    let prepared = ready("w", vec![2, 1], &[1.0, 2.0]);
    let entry = ("w".to_string(), Json::Null);
    let (record, injection) =
        inject(Json::Object(vec![entry]), &prepared, &texts(&[1.0, 2.0]));
    assert!(injection == Injection::Done);
    let Json::Object(entries) = record else { panic!("no object") };
    let Json::Object(parts) = &entries[0].1 else { panic!("no object") };
    let keys: Vec<&str> = parts.iter().map(|(k, _)| k.as_str()).collect();
    assert_eq!(keys, vec!["value", "shape"]);
    let Json::Array(shape) = &parts[1].1 else { panic!("no array") };
    assert!(matches!(&shape[0], Json::Number(n) if n == "2"));
    assert!(matches!(&shape[1], Json::Number(n) if n == "1"));
    let (_, injection) = inject(Json::Bool(true), &prepared, &texts(&[]));
    assert!(injection == Injection::PassedOver);
    let entry = ("w".to_string(), Json::Text("x".to_string()));
    let (_, injection) = inject(Json::Object(vec![entry]), &prepared, &texts(&[]));
    assert!(injection == Injection::Broken);
}
