use story_composer::document::Document;
use story_composer::font::FontChoice;

fn bytes(s: &str) -> Vec<u8> {
    s.as_bytes().to_vec()
}

#[test]
fn save_then_load_round_trips_plain_text() {
    let mut d = Document::new();
    d.set_plot_text(0, bytes("first fragment"));
    d.add_plot_after(0);
    d.set_plot_text(1, bytes("second fragment"));
    d.compose();
    let saved = d.save_to_bytes();
    let mut e = Document::new();
    e.load_from_bytes(&saved).unwrap();
    assert_eq!(e.plot_count(), 2);
    assert_eq!(e.plot_id(0), d.plot_id(0));
    assert_eq!(e.plot_id(1), d.plot_id(1));
    assert_eq!(e.plot_text(0), d.plot_text(0));
    assert_eq!(e.plot_text(1), d.plot_text(1));
    assert_eq!(e.composed_text(), d.composed_text());
}

#[test]
fn save_then_load_round_trips_non_ascii_and_escapes() {
    let mut d = Document::new();
    d.set_plot_text(0, bytes("日本語の「物語」\n第二行\tタブ"));
    d.add_plot_after(0);
    d.set_plot_text(1, bytes("quotes \" and backslash \\ and slash / and \r return"));
    d.add_plot_after(1);
    d.set_plot_text(2, vec![1u8, 2, 3, 31, 32, 33]);
    d.compose();
    let saved = d.save_to_bytes();
    let mut e = Document::new();
    e.load_from_bytes(&saved).unwrap();
    assert_eq!(e.plot_count(), 3);
    for i in 0..3 {
        assert_eq!(e.plot_text(i), d.plot_text(i));
        assert_eq!(e.plot_id(i), d.plot_id(i));
    }
    assert_eq!(e.composed_text(), d.composed_text());
}

#[test]
fn load_is_undoable_and_reindexes_ids() {
    let source = bytes("{\"plots\": [{\"id\": 7, \"text\": \"seven\"}], \"composed_text\": \"c\"}");
    let mut d = Document::new();
    d.set_plot_text(0, bytes("before"));
    d.load_from_bytes(&source).unwrap();
    assert_eq!(d.plot_count(), 1);
    assert_eq!(d.plot_id(0), 7);
    assert_eq!(d.plot_text(0), &bytes("seven"));
    assert_eq!(d.composed_text(), &bytes("c"));
    assert!(d.next_id() >= 8);
    d.add_plot_after(0);
    assert_eq!(d.plot_id(1), 8);
    d.undo();
    d.undo();
    assert_eq!(d.plot_text(0), &bytes("before"));
}

#[test]
fn reindex_never_lowers_the_id_counter() {
    let mut d = Document::new();
    d.add_plot_after(0);
    d.add_plot_after(1);
    assert_eq!(d.next_id(), 3);
    // the loaded ids stop at 0, yet the counter stays where it was, so an
    // undo back across the load can never be followed by a repeated id
    let source = bytes("{\"plots\": [{\"id\": 0, \"text\": \"\"}], \"composed_text\": \"\"}");
    d.load_from_bytes(&source).unwrap();
    assert_eq!(d.next_id(), 3);
    d.undo();
    assert_eq!(d.plot_count(), 3);
    d.add_plot_after(0);
    let ids: Vec<usize> = (0..d.plot_count()).map(|i| d.plot_id(i)).collect();
    assert_eq!(ids, vec![0, 3, 1, 2]);
}

#[test]
fn load_accepts_any_whitespace_between_tokens() {
    let compact = bytes("{\"plots\":[{\"id\":1,\"text\":\"a\"},{\"id\":2,\"text\":\"b\"}],\"composed_text\":\"ab\"}");
    let mut d = Document::new();
    d.load_from_bytes(&compact).unwrap();
    assert_eq!(d.plot_count(), 2);
    assert_eq!(d.plot_text(0), &bytes("a"));
    assert_eq!(d.plot_text(1), &bytes("b"));
    let sprawling = bytes("  {\n\t\"plots\" : [ { \"id\" : 1 , \"text\" : \"a\" } ] ,\r\n \"composed_text\" : \"z\" }  \n");
    let mut e = Document::new();
    e.load_from_bytes(&sprawling).unwrap();
    assert_eq!(e.plot_count(), 1);
    assert_eq!(e.composed_text(), &bytes("z"));
}

#[test]
fn load_decodes_json_escapes() {
    let source = bytes(
        "{\"plots\": [{\"id\": 0, \"text\": \"a\\n\\t\\\"\\\\\\/\\u0041\\u00e9\\u3042\"}], \"composed_text\": \"\\u0001\"}",
    );
    let mut d = Document::new();
    d.load_from_bytes(&source).unwrap();
    assert_eq!(d.plot_text(0), &bytes("a\n\t\"\\/Aéあ"));
    assert_eq!(d.composed_text(), &vec![1u8]);
}

#[test]
fn load_rejects_malformed_documents() {
    let cases: Vec<&str> = vec![
        "",
        "not json at all",
        "{\"plots\": [], \"composed_text\": \"\"}",
        "{\"plots\": [{\"id\": 1, \"text\": \"a\"}, {\"id\": 1, \"text\": \"b\"}], \"composed_text\": \"\"}",
        "{\"plots\": [{\"id\": 1, \"text\": \"a\"}]}",
        "{\"composed_text\": \"\"}",
        "{\"plots\": [{\"id\": -1, \"text\": \"a\"}], \"composed_text\": \"\"}",
        "{\"plots\": [{\"id\": 1, \"text\": \"a\"}], \"composed_text\": \"\"} trailing",
        "{\"plots\": [{\"id\": 1, \"text\": \"unterminated}], \"composed_text\": \"\"}",
        "{\"plots\": [{\"id\": 1, \"text\": \"bad \\q escape\"}], \"composed_text\": \"\"}",
        "{\"plots\": [{\"id\": 99999999999999999999999999, \"text\": \"a\"}], \"composed_text\": \"\"}",
    ];
    for case in cases {
        let mut d = Document::new();
        d.set_plot_text(0, bytes("untouched"));
        let r = d.load_from_bytes(&bytes(case));
        assert!(r.is_err(), "accepted: {}", case);
        assert_eq!(d.plot_text(0), &bytes("untouched"));
        assert_eq!(d.undo_len(), 0);
    }
}

#[test]
fn saved_bytes_are_pretty_printed() {
    let mut d = Document::new();
    d.set_plot_text(0, bytes("a"));
    let saved = d.save_to_bytes();
    let text = String::from_utf8(saved).unwrap();
    let expected = "{\n  \"plots\": [\n    {\n      \"id\": 0,\n      \"text\": \"a\"\n    }\n  ],\n  \"composed_text\": \"\"\n}";
    assert_eq!(text, expected);
}

#[test]
fn font_display_names() {
    assert_eq!(FontChoice::YuGothic.display_name(), "游ゴシック");
    assert_eq!(FontChoice::Meiryo.display_name(), "メイリオ");
    assert_eq!(FontChoice::MSGothic.display_name(), "MS ゴシック");
    assert_eq!(FontChoice::MSMincho.display_name(), "MS 明朝");
}

#[test]
fn font_paths() {
    assert_eq!(FontChoice::YuGothic.font_path(), "C:\\Windows\\Fonts\\YuGothM.ttc");
    assert_eq!(FontChoice::Meiryo.font_path(), "C:\\Windows\\Fonts\\meiryo.ttc");
    assert_eq!(FontChoice::MSGothic.font_path(), "C:\\Windows\\Fonts\\msgothic.ttc");
    assert_eq!(FontChoice::MSMincho.font_path(), "C:\\Windows\\Fonts\\msmincho.ttc");
}

#[test]
fn font_list_and_default() {
    let all = FontChoice::all();
    assert_eq!(all.len(), 4);
    assert!(all[0] == FontChoice::YuGothic);
    assert!(all[1] == FontChoice::Meiryo);
    assert!(all[2] == FontChoice::MSGothic);
    assert!(all[3] == FontChoice::MSMincho);
    assert!(FontChoice::default() == FontChoice::YuGothic);
}
