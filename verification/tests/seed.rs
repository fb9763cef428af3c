use acumen::divine::{cast_from, seed_from};
use acumen::persona::json_block;

fn seed(samples: &Vec<String>) -> u64 {
    let words = vec![("天气".to_string(), 12u64)];
    seed_from(
        3373167460,
        400,
        1_700_000_000,
        1_700_000_000 + 86_400 * 29,
        20,
        210,
        18.0f64.to_bits(),
        samples,
        &words,
    )
}

#[test]
fn the_same_material_casts_the_same_hexagram() {
    let samples = vec!["今天这个雨下得没完没了".to_string(), "凌晨三点还在改".to_string()];
    let again = cast_from(seed(&samples));
    let repeat = cast_from(seed(&samples));
    assert_eq!(again.primary.binary, repeat.primary.binary);
    assert_eq!(again.stalks, repeat.stalks);

    let mut other = samples.clone();
    other.push("又说了新的一句".to_string());
    assert_ne!(seed(&samples), seed(&other));
}

#[test]
fn json_is_found_behind_fences_and_chatter() {
    let raw = "好的，这是画像：\n```json\n{\"title\":\"夜里的常客\",\"note\":\"白天基本不在\"}\n```\n希望有帮助";
    let block = json_block(raw).unwrap();
    let value: serde_json::Value = serde_json::from_str(&block).unwrap();
    assert_eq!(value["title"], "夜里的常客");
    assert_eq!(value["note"], "白天基本不在");
}

#[test]
fn json_without_braces_is_an_error() {
    assert!(json_block("我觉得他挺好的").is_err());
}

#[test]
fn a_reply_with_the_braces_the_wrong_way_round_is_incomplete() {
    let err = json_block("} 然后 {").unwrap_err();
    assert_eq!(err.message(), "模型返回的 JSON 不完整：} 然后 {");
    let err = json_block("没有").unwrap_err();
    assert_eq!(err.message(), "模型没有返回 JSON：没有");
}
