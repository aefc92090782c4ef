use std::str::FromStr;

use scfg::{Directive, ErrorKind, Scfg};

fn directive(params: &[&str]) -> Directive {
    let mut d = Directive::new();
    for p in params {
        d.append_param(p);
    }
    d
}

#[test]
fn flat() {
    let src = r#"dir1 param1 param2 param3
dir2
dir3 param1

# comment
dir4 "param 1" 'param 2'
"#;
    let cfg = Scfg::from_str(src).unwrap();
    let exp = Scfg::from_iter(vec![
        ("dir1".to_string(), directive(&["param1", "param2", "param3"])),
        ("dir2".to_string(), directive(&[])),
        ("dir3".to_string(), directive(&["param1"])),
        ("dir4".to_string(), directive(&["param 1", "param 2"])),
    ]);
    assert_eq!(cfg, exp);
}

#[test]
fn simple_blocks() {
    let src = r#"block1 {
    dir1 param1 param2
    dir2 param1
}

block2 {
}

block3 {
    # comment
}

block4 param1 "param2" {
    dir1
}"#;
    let cfg = Scfg::from_str(src).unwrap();
    let mut exp = Scfg::new();
    let block1 = exp.add("block1");
    let block = block1.get_or_create_child();
    block
        .add("dir1")
        .append_param("param1")
        .append_param("param2");
    block.add("dir2").append_param("param1");
    exp.add("block2").get_or_create_child();
    exp.add("block3").get_or_create_child();
    exp.add("block4")
        .append_param("param1")
        .append_param("param2")
        .get_or_create_child()
        .add("dir1");

    assert_eq!(cfg, exp);
}

#[test]
fn nested() {
    let src = r#"block1 {
    block2 {
        dir1 param1
    }

    block3 {
    }
}

block4 {
    block5 {
        block6 param1 {
            dir1
        }
    }

    dir1
}"#;
    let cfg = Scfg::from_str(src).unwrap();
    let mut exp = Scfg::new();
    let block1 = exp.add("block1").get_or_create_child();
    block1
        .add("block2")
        .get_or_create_child()
        .add("dir1")
        .append_param("param1");
    block1.add("block3").get_or_create_child();
    let block4 = exp.add("block4").get_or_create_child();
    block4
        .add("block5")
        .get_or_create_child()
        .add("block6")
        .append_param("param1")
        .get_or_create_child()
        .add("dir1");
    block4.add("dir1");

    assert_eq!(cfg, exp);
}

#[test]
fn write() {
    let src = r#"dir1 param1 param2 param3
dir2
dir3 param1

# comment
dir4 "param 1" 'param 2'
"#;
    let doc = Scfg::from_str(src).unwrap();
    let mut out = String::new();
    doc.write(&mut out);
    let exp = r#"dir1 param1 param2 param3
dir2
dir3 param1
dir4 'param 1' 'param 2'
"#;
    assert_eq!(out, exp);
}

#[test]
fn write_block() {
    let src = r#"block1 {
	dir1 param1 param2
	dir2 param1
}

block2 {
}

block3 {
	# comment
}

block4 param1 "param2" {
	dir1
}"#;
    let doc = Scfg::from_str(src).unwrap();
    let mut out = String::new();
    doc.write(&mut out);
    let exp = r#"block1 {
	dir1 param1 param2
	dir2 param1
}

block2 {
}

block3 {
}

block4 param1 param2 {
	dir1
}
"#;
    assert_eq!(out, exp);
}

#[test]
fn unexpected_bracket() {
    let src = r#"domain example.com

# TLS endpoint
listen 0.0.0.0:6697 {
    certificate "/etc/letsencrypt/live/example.com/fullchain.pem"
    key         "/etc/letsencrypt/live/example.com/privkey.pem"
}
}

listen 127.0.0.1:6667
"#;

    let err = Scfg::from_str(src).unwrap_err();
    assert!(matches!(err.kind, ErrorKind::UnexpectedClosingBrace));
    assert_eq!(err.lineno, 8);
}

#[test]
fn unexpected_eof() {
    let src = r#"domain example.com

# TLS endpoint
listen 0.0.0.0:6697 {
    certificate "/etc/letsencrypt/live/example.com/fullchain.pem"
"#;

    let err = Scfg::from_str(src).unwrap_err();
    match err.kind {
        ErrorKind::UnexpectedEof => {}
        _ => {
            panic!("unexpected error kind {:?}", err.kind);
        }
    }
    assert_eq!(err.lineno, 6);
}

#[test]
fn missing_quote() {
    let src = r#"domain example.com

# TLS endpoint
listen 0.0.0.0:6697 {
    certificate "/etc/letsencrypt/live/example.com/fullchain.pem
    key         "/etc/letsencrypt/live/example.com/privkey.pem"
}

listen 127.0.0.1:6667
"#;

    let err = Scfg::from_str(src).unwrap_err();
    assert!(matches!(err.kind, ErrorKind::ShellWords(_)));
    assert_eq!(err.lineno, 5);
}
