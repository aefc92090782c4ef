use std::str::FromStr;

use scfg::{line_action, Directive, ErrorKind, LineAction, Scfg};

fn params_of(d: &Directive) -> Vec<String> {
    d.params().to_vec()
}

fn written(doc: &Scfg) -> String {
    let mut out = String::new();
    doc.write(&mut out);
    out
}

#[test]
fn bucket_keeps_insertion_order() {
    let mut doc = Scfg::new();
    doc.add("b").append_param("1");
    doc.add("a").append_param("x");
    doc.add("b").append_param("2");
    doc.add("b").append_param("3");
    let all = doc.get_all("b").unwrap();
    assert_eq!(all.len(), 3);
    assert_eq!(params_of(&all[0]), vec!["1"]);
    assert_eq!(params_of(&all[1]), vec!["2"]);
    assert_eq!(params_of(&all[2]), vec!["3"]);
    assert_eq!(params_of(doc.get("b").unwrap()), vec!["1"]);
    assert_eq!(doc.get_all("a").unwrap().len(), 1);
}

#[test]
fn parsed_bucket_keeps_line_order() {
    let doc = Scfg::from_str("x 1\ny 0\nx 2\nx 3\n").unwrap();
    let all = doc.get_all("x").unwrap();
    let ps: Vec<Vec<String>> = all.iter().map(params_of).collect();
    assert_eq!(ps, vec![vec!["1"], vec!["2"], vec!["3"]]);
}

#[test]
fn names_keep_first_insertion_order() {
    let mut doc = Scfg::new();
    doc.add("zeta");
    doc.add("alpha");
    doc.add("zeta");
    assert_eq!(written(&doc), "zeta\nzeta\nalpha\n");
}

#[test]
fn lookups_on_absent_name() {
    let mut doc = Scfg::new();
    doc.add("present");
    assert!(doc.contains("present"));
    assert!(!doc.contains("absent"));
    assert!(doc.get("absent").is_none());
    assert!(doc.get_all("absent").is_none());
    assert!(doc.get_all_mut("absent").is_none());
    assert!(doc.remove("absent").is_none());
    assert!(doc.remove_entry("absent").is_none());
}

#[test]
fn get_all_mut_changes_in_place() {
    let mut doc = Scfg::new();
    doc.add("d").append_param("old");
    let v = doc.get_all_mut("d").unwrap();
    v[0].clear_params();
    v[0].append_param("new");
    v.push(Directive::new());
    assert_eq!(doc.get_all("d").unwrap().len(), 2);
    assert_eq!(params_of(doc.get("d").unwrap()), vec!["new"]);
}

#[test]
fn emptied_bucket_gives_no_first() {
    let mut doc = Scfg::new();
    doc.add("d");
    doc.get_all_mut("d").unwrap().clear();
    assert!(!doc.contains("d"));
    assert!(doc.get("d").is_none());
    assert!(doc.get_all("d").is_none());
    assert!(doc.get_all_mut("d").is_none());
    assert!(doc.remove("d").is_none());
    doc.add("d").append_param("again");
    assert_eq!(params_of(doc.get("d").unwrap()), vec!["again"]);
}

#[test]
fn remove_and_remove_entry() {
    let mut doc = Scfg::new();
    doc.add("a").append_param("1");
    doc.add("b");
    doc.add("a").append_param("2");
    let (name, removed) = doc.remove_entry("a").unwrap();
    assert_eq!(name, "a");
    assert_eq!(removed.len(), 2);
    assert!(!doc.contains("a"));
    assert!(doc.contains("b"));
    let removed = doc.remove("b").unwrap();
    assert_eq!(removed.len(), 1);
    assert_eq!(doc, Scfg::new());
}

#[test]
fn child_lifecycle() {
    let mut d = Directive::new();
    assert!(d.child().is_none());
    d.get_or_create_child().add("inner");
    assert!(d.child().unwrap().contains("inner"));
    d.get_or_create_child().add("second");
    assert!(d.child().unwrap().contains("inner"));
    assert!(d.child().unwrap().contains("second"));
    let taken = d.take_child().unwrap();
    assert!(taken.contains("inner"));
    assert!(d.child().is_none());
    assert!(d.take_child().is_none());
}

#[test]
fn added_directive_is_empty() {
    let mut doc = Scfg::new();
    let d = doc.add("dir1");
    assert_eq!(*d, Directive::default());
    assert_eq!(Directive::new(), Directive::default());
    assert_eq!(Scfg::default(), Scfg::new());
}

#[test]
fn params_append_and_clear() {
    let mut d = Directive::new();
    d.append_param("a").append_param("b c");
    assert_eq!(params_of(&d), vec!["a", "b c"]);
    d.clear_params();
    assert!(d.params().is_empty());
}

#[test]
fn scenario_flat_document() {
    let src = "dir1 param1 param2 param3\ndir2\ndir3 param1\n\n# comment\ndir4 \"param 1\" 'param 2'\n";
    let doc = Scfg::from_str(src).unwrap();
    assert_eq!(params_of(doc.get("dir1").unwrap()), vec!["param1", "param2", "param3"]);
    assert!(doc.get("dir2").unwrap().params().is_empty());
    assert_eq!(params_of(doc.get("dir3").unwrap()), vec!["param1"]);
    assert_eq!(params_of(doc.get("dir4").unwrap()), vec!["param 1", "param 2"]);
    assert_eq!(
        written(&doc),
        "dir1 param1 param2 param3\ndir2\ndir3 param1\ndir4 'param 1' 'param 2'\n"
    );
}

#[test]
fn stray_brace_at_top_level() {
    let err = Scfg::from_str("a {\n}\n}\n").unwrap_err();
    assert!(matches!(err.kind(), ErrorKind::UnexpectedClosingBrace));
    assert_eq!(err.lineno(), 3);
}

#[test]
fn unclosed_block_at_end() {
    let err = Scfg::from_str("a {\nb\n").unwrap_err();
    assert!(matches!(err.kind(), ErrorKind::UnexpectedEof));
    assert_eq!(err.lineno(), 3);
    let err = Scfg::from_str("a {\nb").unwrap_err();
    assert!(matches!(err.kind(), ErrorKind::UnexpectedEof));
    assert_eq!(err.lineno(), 3);
}

#[test]
fn unterminated_quote() {
    let err = Scfg::from_str("a\nb 'open\nc\n").unwrap_err();
    assert!(matches!(err.kind(), ErrorKind::ShellWords(_)));
    assert_eq!(err.lineno(), 2);
}

#[test]
fn empty_text_is_empty_document() {
    assert_eq!(Scfg::from_str("").unwrap(), Scfg::new());
    assert_eq!(Scfg::from_str("\n\n# only a comment\n   \n").unwrap(), Scfg::new());
    assert_eq!(written(&Scfg::new()), "");
}

#[test]
fn unnamed_block() {
    let doc = Scfg::from_str("{\n  x\n}\n").unwrap();
    let d = doc.get("").unwrap();
    assert!(d.params().is_empty());
    assert!(d.child().unwrap().contains("x"));
    assert_eq!(written(&doc), "'' {\n\tx\n}\n");
}

#[test]
fn quoted_brace_is_a_parameter() {
    let doc = Scfg::from_str("a \"{\"\n").unwrap();
    let d = doc.get("a").unwrap();
    assert_eq!(params_of(d), vec!["{"]);
    assert!(d.child().is_none());
}

#[test]
fn crlf_lines() {
    let doc = Scfg::from_str("a 1\r\nb {\r\n c\r\n}\r\n").unwrap();
    assert_eq!(params_of(doc.get("a").unwrap()), vec!["1"]);
    assert!(doc.get("b").unwrap().child().unwrap().contains("c"));
}

#[test]
fn blank_line_after_each_block() {
    let mut doc = Scfg::new();
    doc.add("a").get_or_create_child().add("x");
    doc.add("a");
    doc.add("b").get_or_create_child();
    assert_eq!(written(&doc), "a {\n\tx\n}\n\na\nb {\n}\n");
}

#[test]
fn quoting_in_output() {
    let mut doc = Scfg::new();
    doc.add("it's").append_param("").append_param("a\tb").append_param("plain");
    assert_eq!(written(&doc), "'it'\\''s' '' 'a\tb' plain\n");
}

#[test]
fn builder_document_round_trips() {
    let mut doc = Scfg::new();
    let train = doc
        .add("train")
        .append_param("Shinkansen")
        .get_or_create_child();
    let e5 = train.add("model").append_param("E5").get_or_create_child();
    e5.add("max-speed").append_param("320km/h");
    e5.add("lines-served").append_param("Tōhoku").append_param("it's \"here\"");
    train.add("model").append_param("E7");
    doc.add("");
    doc.add("x").append_param("with space").append_param("");
    let text = written(&doc);
    assert_eq!(Scfg::from_str(&text).unwrap(), doc);
}

#[test]
fn normalized_text_is_stable() {
    let src = "b 'q q' \"r\\\"s\" {\n  # c\n  inner {\n  }\n}\n\na x\nb\n";
    let once = written(&Scfg::from_str(src).unwrap());
    let twice = written(&Scfg::from_str(&once).unwrap());
    assert_eq!(once, twice);
}

#[test]
fn quote_then_split_gives_the_word() {
    for w in ["plain", "with space", "it's", "\"dq\"", "", "tab\there", "#hash", "back\\slash"] {
        let mut doc = Scfg::new();
        doc.add("n").append_param(w);
        let back = Scfg::from_str(&written(&doc)).unwrap();
        assert_eq!(params_of(back.get("n").unwrap()), vec![w]);
    }
}

#[test]
fn from_iter_files_pairs_in_order() {
    let mut one = Directive::new();
    one.append_param("1");
    let mut two = Directive::new();
    two.append_param("2");
    let doc = Scfg::from_iter(vec![
        ("k".to_string(), one),
        ("j".to_string(), Directive::new()),
        ("k".to_string(), two),
    ]);
    let ks: Vec<Vec<String>> = doc.get_all("k").unwrap().iter().map(params_of).collect();
    assert_eq!(ks, vec![vec!["1"], vec!["2"]]);
    assert_eq!(written(&doc), "k 1\nk 2\nj\n");
}

#[test]
fn line_actions() {
    let w = |ws: &[&str]| ws.iter().map(|s| s.to_string()).collect::<Vec<String>>();
    assert!(matches!(line_action("", w(&[])), LineAction::Blank));
    assert!(matches!(line_action("}", w(&["}"])), LineAction::Close));
    match line_action("a b {", w(&["a", "b", "{"])) {
        LineAction::Open(n, p) => {
            assert_eq!(n, "a");
            assert_eq!(p, vec!["b"]);
        }
        _ => panic!("expected an opening line"),
    }
    match line_action("{", w(&["{"])) {
        LineAction::Open(n, p) => {
            assert_eq!(n, "");
            assert!(p.is_empty());
        }
        _ => panic!("expected an opening line"),
    }
    match line_action("a \"{\"", w(&["a", "{"])) {
        LineAction::Leaf(n, p) => {
            assert_eq!(n, "a");
            assert_eq!(p, vec!["{"]);
        }
        _ => panic!("expected a plain directive"),
    }
}

#[test]
fn long_document() {
    let mut src = String::new();
    for k in 0..20000 {
        src.push_str(&format!("item{} value{} \"quoted {}\"\n", k % 50, k, k));
    }
    src.push_str("block {\n\tinner 1\n}\n");
    let doc = Scfg::from_str(&src).unwrap();
    assert_eq!(doc.get_all("item7").unwrap().len(), 400);
    assert_eq!(params_of(doc.get("item7").unwrap()), vec!["value7", "quoted 7"]);
    let again = Scfg::from_str(&written(&doc)).unwrap();
    assert_eq!(again, doc);
}

#[test]
fn clone_is_equal_and_independent() {
    let mut doc = Scfg::new();
    doc.add("a").append_param("1").get_or_create_child().add("inner");
    let copy = doc.clone();
    assert_eq!(copy, doc);
    doc.add("b");
    assert_ne!(copy, doc);
    assert!(!copy.contains("b"));
    let d = copy.get("a").unwrap().clone();
    assert_eq!(&d, copy.get("a").unwrap());
}

#[test]
fn from_str_agrees_with_document() {
    let src = "a 1\nb {\n c\n}\n";
    assert_eq!(Scfg::from_str(src).unwrap(), scfg::document(src).unwrap());
    let e1 = Scfg::from_str("}\n").unwrap_err();
    let e2 = scfg::document("}\n").unwrap_err();
    assert_eq!(e1.lineno(), e2.lineno());
    assert!(matches!(e1.kind(), ErrorKind::UnexpectedClosingBrace));
}

#[test]
fn equality_ignores_name_order() {
    let mut a = Scfg::new();
    a.add("x").append_param("1");
    a.add("y").get_or_create_child().add("z");
    let mut b = Scfg::new();
    b.add("y").get_or_create_child().add("z");
    b.add("x").append_param("1");
    assert_eq!(a, b);
    b.add("x").append_param("2");
    assert_ne!(a, b);
    let mut c = Scfg::new();
    c.add("x").append_param("other");
    c.add("y").get_or_create_child().add("z");
    assert_ne!(a, c);
}
