use clickpipe::uri::{encode_path, file_uri, Editor};

#[test]
fn encode_path_keeps_unreserved_and_encodes_the_rest() {
    assert_eq!(encode_path("/a/b-c_d.e~f"), "/a/b-c_d.e~f");
    assert_eq!(encode_path("/a b/%x?y#z"), "/a%20b/%25x%3Fy%23z");
    assert_eq!(encode_path("/répertoire"), "/r%C3%A9pertoire");
}

#[test]
fn file_uri_carries_the_host() {
    assert_eq!(file_uri("devbox", "/tmp/a.rs"), "file://devbox/tmp/a.rs");
    assert_eq!(file_uri("", "/tmp/a.rs"), "file:///tmp/a.rs");
}

#[test]
fn vscode_href_omits_missing_line_and_column() {
    let ed = Editor::from_arg("vscode").unwrap();
    assert_eq!(ed.href("/w/x.rs", None, None), "vscode://file/w/x.rs");
    assert_eq!(ed.href("/w/x.rs", Some(3), None), "vscode://file/w/x.rs:3");
    assert_eq!(
        ed.href("/w/x.rs", Some(3), Some(9)),
        "vscode://file/w/x.rs:3:9"
    );
}

#[test]
fn idea_and_sublime_use_query_parameters() {
    let idea = Editor::from_arg("idea").unwrap();
    assert_eq!(
        idea.href("/w/x.kt", Some(12), Some(4)),
        "idea://open?file=/w/x.kt&line=12&column=4"
    );
    let subl = Editor::from_arg("subl").unwrap();
    assert_eq!(
        subl.href("/w/x.py", Some(7), None),
        "subl://open?url=file:///w/x.py&line=7"
    );
}

#[test]
fn custom_template_expands_placeholders_with_defaults() {
    let ed = Editor::from_arg("myed://o{path}?l={line}&c={col}").unwrap();
    assert_eq!(
        ed.href("/w/a b.c", Some(5), None),
        "myed://o/w/a%20b.c?l=5&c=1"
    );
}

#[test]
fn unknown_editor_name_is_rejected_with_the_preset_list() {
    let err = Editor::from_arg("nano").unwrap_err();
    assert!(err.contains("unknown editor 'nano'"));
    assert!(err.contains("vscode"));
}

#[test]
fn every_preset_builds_its_own_scheme() {
    let cases = [
        ("vscode-insiders", "vscode-insiders://file/p:1:2"),
        ("cursor", "cursor://file/p:1:2"),
        ("zed", "zed://file/p:1:2"),
        ("jetbrains", "idea://open?file=/p&line=1&column=2"),
        ("sublime", "subl://open?url=file:///p&line=1&column=2"),
        ("txmt", "txmt://open?url=file:///p&line=1&column=2"),
        ("textmate", "txmt://open?url=file:///p&line=1&column=2"),
    ];
    for (name, want) in cases {
        let ed = Editor::from_arg(name).unwrap();
        assert_eq!(ed.href("/p", Some(1), Some(2)), want, "{name}");
    }
}

#[test]
fn editor_error_message_is_exact() {
    assert_eq!(
        Editor::from_arg("vi").unwrap_err(),
        "unknown editor 'vi' (presets: vscode, vscode-insiders, cursor, zed, idea, subl, txmt; or a template containing {path})"
    );
}

#[test]
fn column_without_line_is_dropped_by_presets() {
    let ed = Editor::from_arg("zed").unwrap();
    assert_eq!(ed.href("/a", None, Some(4)), "zed://file/a");
}

#[test]
fn encoded_paths_pass_sanitizing_unchanged() {
    for p in ["/a b/ç?#%", "/plain/path.rs", "/tab\there"] {
        let enc = encode_path(p);
        assert_eq!(clickpipe::osc8::sanitize(&enc), enc);
    }
}

#[test]
fn percent_decoding_gives_an_encoded_path_back() {
    fn decode(s: &str) -> Vec<u8> {
        let b = s.as_bytes();
        let mut out = Vec::new();
        let mut i = 0;
        while i < b.len() {
            if b[i] == b'%' && i + 2 < b.len() {
                out.push(u8::from_str_radix(&s[i + 1..i + 3], 16).unwrap());
                i += 3;
            } else {
                out.push(b[i]);
                i += 1;
            }
        }
        out
    }
    for p in ["/a b/%x?y#z", "/répertoire", "/plain-_.~/"] {
        assert_eq!(decode(&encode_path(p)), p.as_bytes());
    }
}
