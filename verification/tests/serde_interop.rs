//! The library's persisted format against serde_json as a referee: what the
//! library writes must read back as ordinary JSON with the same content, and
//! strings escaped by serde_json must read back unchanged.

use serde_json::Value;
use story_composer::document::Document;

fn bytes(s: &str) -> Vec<u8> {
    s.as_bytes().to_vec()
}

#[test]
fn saved_bytes_are_valid_json_with_the_same_content() {
    let mut d = Document::new();
    d.set_plot_text(0, bytes("日本語の「物語」\n\ttabs and \"quotes\" and \\slashes\\"));
    d.add_plot_after(0);
    d.set_plot_text(1, vec![7u8, 8, 9, 10, 11, 12, 13, 27, 31]);
    d.compose();
    let saved = d.save_to_bytes();
    let v: Value = serde_json::from_slice(&saved).unwrap();
    let plots = v.get("plots").unwrap().as_array().unwrap();
    assert_eq!(plots.len(), 2);
    assert_eq!(plots[0].get("id").unwrap().as_u64(), Some(0));
    assert_eq!(plots[1].get("id").unwrap().as_u64(), Some(1));
    assert_eq!(
        plots[0].get("text").unwrap().as_str().unwrap().as_bytes(),
        d.plot_text(0).as_slice()
    );
    assert_eq!(
        plots[1].get("text").unwrap().as_str().unwrap().as_bytes(),
        d.plot_text(1).as_slice()
    );
    assert_eq!(
        v.get("composed_text").unwrap().as_str().unwrap().as_bytes(),
        d.composed_text().as_slice()
    );
}

#[test]
fn strings_escaped_by_serde_json_read_back_unchanged() {
    let specimens: Vec<&str> = vec![
        "plain",
        "line\nbreak and \"quote\" and back\\slash",
        "control\u{1}\u{8}\u{c}\u{1f}bytes",
        "日本語テキスト",
        "emoji \u{1f389} outside the basic plane",
        "/forward/slashes/",
    ];
    for s in specimens {
        let escaped = serde_json::to_string(&Value::String(s.to_string())).unwrap();
        let doc = format!(
            "{{\"plots\": [{{\"id\": 0, \"text\": {}}}], \"composed_text\": {}}}",
            escaped, escaped
        );
        let mut d = Document::new();
        d.load_from_bytes(&bytes(&doc)).unwrap();
        assert_eq!(d.plot_text(0), &bytes(s), "specimen: {}", s);
        assert_eq!(d.composed_text(), &bytes(s), "specimen: {}", s);
    }
}

#[test]
fn load_rejects_surrogate_pair_escapes() {
    // the reader takes code points as single \u escapes or raw UTF-8, never
    // as surrogate pairs; such a hand-written file is rejected whole
    let doc = "{\"plots\": [{\"id\": 0, \"text\": \"\\ud83c\\udf89\"}], \"composed_text\": \"\"}";
    let mut d = Document::new();
    assert!(d.load_from_bytes(&bytes(doc)).is_err());
}
