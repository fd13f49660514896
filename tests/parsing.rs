use virtualsnip::reduce::reduce;
use virtualsnip::vs_snippet::{
    choice, formats, number, options, parse, placeholder, regex, text, var, variable, Any, Ast,
    Format, Options, Regex, V,
};
use virtualsnip::{Node, NodePlaceholder, NodeText, NodeVariable};

fn cs(s: &str) -> Vec<char> {
    s.chars().collect()
}

fn rest(s: &[char], e: usize) -> String {
    s[e..].iter().collect()
}

fn choice_options(s: &str) -> Vec<String> {
    let c = cs(s);
    match choice(&c, 0) {
        Some((_, Any::Choice(_, xs))) => xs,
        other => panic!("not a choice: {:?}", other),
    }
}

fn check_number(s: &str, left: &str, n: usize) {
    let c = cs(s);
    let (e, v) = number(&c, 0).unwrap();
    assert_eq!(rest(&c, e), left);
    assert_eq!(v, n);
}

fn check_var(s: &str, left: &str, name: &str) {
    let c = cs(s);
    let (e, v) = var(&c, 0).unwrap();
    assert_eq!(rest(&c, e), left);
    assert_eq!(v, name);
}

#[test]
fn can_number() {
    check_number("$01a", "a", 1);
    check_number("${0}", "", 0);
    check_number("${00}a", "a", 0);
    assert!(number(&cs(" ${0}"), 0).is_none());
    assert!(number(&cs("${}"), 0).is_none());
    assert!(number(&cs("${-0}a"), 0).is_none());
}

#[test]
fn can_tab_stop() {
    check_number("$01a", "a", 1);
    check_number("${0}", "", 0);
    check_number("${00}a", "a", 0);
    assert!(number(&cs(" ${0}"), 0).is_none());
    assert!(number(&cs("${}"), 0).is_none());
    assert!(number(&cs("${-0}a"), 0).is_none());
}

#[test]
fn vs_snippet_can_var() {
    check_var("$_a", "", "_a");
    check_var("${_3}", "", "_3");
    check_var("${a3}", "", "a3");
    assert!(var(&cs("${3}"), 0).is_none());
    assert!(var(&cs("$3"), 0).is_none());
}

#[test]
fn vsnip_can_var() {
    check_var("$_a", "", "_a");
    check_var("${_3}", "", "_3");
    check_var("${a3}", "", "a3");
    assert!(var(&cs("${3}"), 0).is_none());
    assert!(var(&cs("$3"), 0).is_none());
}

#[test]
fn vs_snippet_can_choice() {
    assert_eq!(choice_options("${0|a|}"), &["a"]);
    assert_eq!(choice_options("${0|a,b|}"), &["a", "b"]);
    assert!(choice(&cs("${0|a,,b|}"), 0).is_none());
    assert_eq!(choice_options(r#"${0|\\a\,,b\||}"#), &[r#"\a,"#, r#"b|"#]);
}

#[test]
fn vsnip_can_choice() {
    assert_eq!(choice_options("${0|a|}"), &["a"]);
    assert_eq!(choice_options("${0|a,b|}"), &["a", "b"]);
    assert!(choice(&cs("${0|a,,b|}"), 0).is_none());
    assert_eq!(choice_options(r#"${0|\\a\,,b\||}"#), &[r#"\a,"#, r#"b|"#]);
}

#[test]
fn vs_snippet_can_placeholder() {
    let c = cs("${30:${3:${2}}}");
    let (e, a) = placeholder(&c, 0).unwrap();
    assert_eq!(rest(&c, e), "");
    assert_eq!(a, Any::Placeholder(30, vec![Any::Placeholder(3, vec![Any::TabStop(2)])]));
    let c = cs("${1:true}");
    let (e, a) = placeholder(&c, 0).unwrap();
    assert_eq!(rest(&c, e), "");
    assert_eq!(a, Any::Placeholder(1, vec![Any::Text("true".into())]));
}

#[test]
fn vsnip_can_placeholder() {
    let c = cs("${30:${3:${2}}}");
    let (e, a) = placeholder(&c, 0).unwrap();
    assert_eq!(rest(&c, e), "");
    assert_eq!(a, Any::Placeholder(30, vec![Any::Placeholder(3, vec![Any::TabStop(2)])]));
}

#[test]
fn can_variable() {
    let c = cs("${as:${wer:${2}}}");
    let (e, a) = variable(&c, 0).unwrap();
    assert_eq!(rest(&c, e), "");
    assert_eq!(
        a,
        Any::Variable(
            "as".into(),
            V::Any(vec![Any::Variable("wer".into(), V::Any(vec![Any::TabStop(2)]))])
        )
    );
    let c = cs("${_3/.*/a/g}");
    let (e, a) = variable(&c, 0).unwrap();
    assert_eq!(rest(&c, e), "");
    assert_eq!(
        a,
        Any::Variable(
            "_3".into(),
            V::Transform(Regex(".*".into()), vec![Format::Text("a".into())], Options("g".into()))
        )
    );
}

#[test]
fn can_regex() {
    let check = |s: &str, left: &str, r: &str| {
        let c = cs(s);
        let (e, v) = regex(&c, 0).unwrap();
        assert_eq!(rest(&c, e), left);
        assert_eq!(v, Regex(r.into()));
    };
    check("a", "", "a");
    check(r#"a\/"#, "", r#"a\/"#);
    check(r#"a\\"#, "", r#"a\\"#);
    check(r#"a/"#, "/", "a");
    assert!(regex(&cs(r#"a\"#), 0).is_none());
}

#[test]
fn can_options() {
    let check = |s: &str, left: &str, o: &str| {
        let c = cs(s);
        let (e, v) = options(&c, 0);
        assert_eq!(rest(&c, e), left);
        assert_eq!(v, Options(o.into()));
    };
    check("a", "", "a");
    check("a/", "", "a/");
    check("/", "", "/");
    check("g", "", "g");
    check("g}", "}", "g");
}

#[test]
fn can_format() {
    let check = |s: &str, left: &str, fs: Vec<Format>| {
        let c = cs(s);
        let (e, v) = formats(&c, 0);
        assert_eq!(rest(&c, e), left);
        assert_eq!(v, fs);
    };
    check("$2", "", vec![Format::Matched(2)]);
    check("${3}", "", vec![Format::Matched(3)]);
    check("${3:/upcase}", "", vec![Format::Upcase(3)]);
    check("${3:+/upcase}", "", vec![Format::If(3, "/upcase".into())]);
    check("${3:?foo:bar}", "", vec![Format::IfElse(3, "foo".into(), "bar".into())]);
    check("$", "", vec![Format::Text("$".into())]);
    check("", "", vec![]);
    check("${3}a/", "/", vec![Format::Matched(3), Format::Text("a".into())]);
}

#[test]
fn can_text() {
    let check = |s: &str, left: &str, v: &str| {
        let c = cs(s);
        let (e, a) = text(&c, 0).unwrap();
        assert_eq!(rest(&c, e), left);
        assert_eq!(a, Any::Text(v.into()));
    };
    check(r#"\$2"#, "", r#"$2"#);
    check("", "", "");
    check(" = {}\n\n", "", " = {}\n\n");
    assert!(text(&cs(r#"$2"#), 0).is_none());
}

#[test]
fn can_parse() {
    assert_eq!(
        parse("if ${1:true} then\n\t$0\nend"),
        Some(Ast(vec![
            Any::Text("if ".into()),
            Any::Placeholder(1, vec![Any::Text("true".into())]),
            Any::Text(" then\n\t".into()),
            Any::TabStop(0),
            Any::Text("\nend".into())
        ]))
    );
    let a = parse("${1:className} = {}\n\n$1.${2:new} = function($3)\n\tlocal ${4:varName} = ${5:{}}\n\n\t${6: --code}\n\n\treturn $4\nend");
    let b = Some(Ast(vec![
        Any::Placeholder(1, vec![Any::Text("className".into())]),
        Any::Text(" = {}\n\n".into()),
        Any::TabStop(1),
        Any::Text(".".into()),
        Any::Placeholder(2, vec![Any::Text("new".into())]),
        Any::Text(" = function(".into()),
        Any::TabStop(3),
        Any::Text(")\n\tlocal ".into()),
        Any::Placeholder(4, vec![Any::Text("varName".into())]),
        Any::Text(" = ".into()),
        Any::Placeholder(5, vec![Any::Text("{".into())]),
        Any::Text("}\n\n\t".into()),
        Any::Placeholder(6, vec![Any::Text(" --code".into())]),
        Any::Text("\n\n\treturn ".into()),
        Any::TabStop(4),
        Any::Text("\nend".into()),
    ]));
    assert_eq!(a, b);
    assert!(parse("if (${1:condition}) {\n\t${0}\n}").is_some());
}

#[test]
fn parse_tab_stop_then_text() {
    assert_eq!(parse("$01a"), Some(Ast(vec![Any::TabStop(1), Any::Text("a".into())])));
    assert_eq!(parse("${00}"), Some(Ast(vec![Any::TabStop(0)])));
    assert_eq!(parse("${_3}"), Some(Ast(vec![Any::Variable("_3".into(), V::Absent)])));
    assert_eq!(parse("${}"), None);
    assert_eq!(parse("${-0}"), None);
}

#[test]
fn parse_failures() {
    // a lone `$`, an empty choice option, an unclosed placeholder, a bad escape
    assert_eq!(parse("a $ b"), None);
    assert_eq!(parse("${0|a,,b|}"), None);
    assert_eq!(parse("${1:abc"), None);
    assert_eq!(parse(r#"a\b"#), None);
    // a number that does not fit
    assert_eq!(parse("${99999999999999999999999999:x}"), None);
    assert!(number(&cs("$99999999999999999999999999"), 0).is_none());
}

#[test]
fn parse_escapes_and_empty() {
    assert_eq!(parse(""), Some(Ast(vec![])));
    assert_eq!(parse(r#"\$\\}"#), Some(Ast(vec![Any::Text(r#"$\}"#.into())])));
    assert_eq!(
        parse(r#"${1:a\}b}"#),
        Some(Ast(vec![Any::Placeholder(1, vec![Any::Text("a}b".into())])]))
    );
    assert_eq!(
        parse("${0|x,y|}z"),
        Some(Ast(vec![Any::Choice(0, vec!["x".into(), "y".into()]), Any::Text("z".into())]))
    );
}

#[test]
fn format_fragments_with_conditions() {
    let c = cs("${1:-no}${2:yes}${3:/downcase}${4:/capitalize}x/");
    let (e, v) = formats(&c, 0);
    assert_eq!(rest(&c, e), "/");
    assert_eq!(
        v,
        vec![
            Format::Else(1, "no".into()),
            Format::Else(2, "yes".into()),
            Format::Downcase(3),
            Format::Capitalize(4),
            Format::Text("x".into()),
        ]
    );
}

#[test]
fn reduce_keeps_text_shape() {
    let ast = parse("${1:a${2}}${x:b}${y/r/f/}${0|p,q|}$3t").unwrap();
    let nodes = reduce(&ast.0);
    assert_eq!(
        nodes,
        vec![
            Node::Placeholder(NodePlaceholder {
                children: vec![
                    Node::Text(NodeText { value: "a".into() }),
                    Node::Placeholder(NodePlaceholder { children: vec![] }),
                ]
            }),
            Node::Variable(NodeVariable { children: vec![Node::Text(NodeText { value: "b".into() })] }),
            Node::Variable(NodeVariable { children: vec![] }),
            Node::Placeholder(NodePlaceholder { children: vec![] }),
            Node::Placeholder(NodePlaceholder { children: vec![] }),
            Node::Text(NodeText { value: "t".into() }),
        ]
    );
}

#[test]
fn literal_text_of_plain_template() {
    let ast = parse(r#"if ${1:cond \$} then ${2:x${3:y}z}\\"#).unwrap();
    let nodes = reduce(&ast.0);
    let s: String = nodes.iter().map(virtualsnip::text).collect();
    assert_eq!(s, r#"if cond $ then xyz\"#);
}
