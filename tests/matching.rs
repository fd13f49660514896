use virtualsnip::{
    contains, find, first_text, match_lines, select_best, tail, text, Found, Highlight, Node,
    NodePlaceholder, NodeText, NodeVariable, Request, Response, Snippet, Text,
};

fn t(s: &str) -> Node {
    Node::Text(NodeText { value: s.into() })
}

fn ph(children: Vec<Node>) -> Node {
    Node::Placeholder(NodePlaceholder { children })
}

fn if_snippet() -> Vec<Node> {
    vec![
        t("if "),
        ph(vec![t("condition")]),
        t(" {\n    "),
        ph(vec![t("unimplemented!();")]),
        t("\n}"),
    ]
}

fn body(lines: &[&str]) -> Snippet {
    Snippet { body: lines.iter().map(|l| l.to_string()).collect() }
}

#[test]
fn can_find() {
    let snippet = &[
        Node::Text(NodeText { value: "if ".into() }),
        Node::Placeholder(NodePlaceholder {
            children: vec![Node::Text(NodeText { value: "condition".into() })],
        }),
        Node::Text(NodeText { value: " {\n    ".into() }),
        Node::Placeholder(NodePlaceholder {
            children: vec![Node::Text(NodeText { value: "unimplemented!();".into() })],
        }),
        Node::Text(NodeText { value: "\n}".into() }),
    ];
    let found = find("    if true {", snippet);
    assert_eq!(found, Found { num: 3, hit: 2, num_first: 1 });
}

#[test]
fn can_contains() {
    assert_eq!(contains(&"    if ".chars().collect::<Vec<_>>(), "if"), Some(4));
    assert_eq!(contains(&"    if true {\n".chars().collect::<Vec<_>>(), "{\n"), Some(12));
}

#[test]
fn can_match() {
    let snippets = &[vec![
        Node::Text(NodeText { value: "if ".into() }),
        Node::Placeholder(NodePlaceholder {
            children: vec![Node::Text(NodeText { value: "condition".into() })],
        }),
        Node::Text(NodeText { value: " {\n    ".into() }),
        Node::Placeholder(NodePlaceholder {
            children: vec![Node::Text(NodeText { value: "unimplemented!();".into() })],
        }),
        Node::Text(NodeText { value: "\n}".into() }),
    ]];
    let before_cursor_inclusive = &["fn main(){".into(), "    if a == b {".into()];
    let ms = match_lines(2, before_cursor_inclusive, snippets);
    assert_eq!(ms.len(), 2);
    for (ns, l) in ms {
        match l {
            2 => assert_eq!(ns, vec![]),
            3 => assert_eq!(
                ns,
                vec![
                    Node::Placeholder(NodePlaceholder {
                        children: vec![Node::Text(NodeText { value: "unimplemented!();".into() })],
                    }),
                    Node::Text(NodeText { value: "\n}".into() }),
                ]
            ),
            _ => panic!("unexpected line {}", l),
        }
    }
}

#[test]
fn can_calc() {
    let req = Request {
        highlight: Highlight { base: "Comment".into() },
        sign: " ".into(),
        start_line: 2,
        cursor_line: 3,
        lines: vec!["local function foo(a, b)".into(), "    if a == b then".into()],
        snippets: vec![],
        sources: vec![vec![
            body(&[
                "f = io.open(${1:\"${2:filename}\"}, \"${3:r}\")\n",
                "while true do",
                "\tline = f:read()",
                "\tif line == nil then break end\n",
                "\t${0:--code}",
                "end",
            ]),
            body(&["for i, ${1:x} in pairs(${2:table}) do", "\t$0", "end"]),
            body(&["elseif ${1:true} then", "\t$0"]),
            body(&["while ${1:true} do", "\t$0", "end"]),
            body(&["function self:${1:methodName}($2)", "\t$0", "end"]),
            body(&["local ${1:var} = require(\"${2:module}\")"]),
            body(&["require(\"${1:module}\")"]),
            body(&["for ${1:i}=${2:1},${3:10} do", "\t$0", "end"]),
            body(&["local ${1:varName} = ${0:value}"]),
            body(&["if ${1:true} then", "\t$0", "end"]),
            body(&["function ${1:name}($2)", "\t${3:-- code}", "end"]),
            body(&["return $0"]),
            body(&["local ${1:name} = function($2)", "\t${0:-- code}", "end"]),
            body(&[
                "${1:className} = {}\n",
                "$1.${2:new} = function($3)",
                "\tlocal ${4:varName} = ${5:{}}\n",
                "\t${6: --code}\n",
                "\treturn $4",
                "end",
            ]),
            body(&["local ${0}"]),
            body(&["print(${0})"]),
        ]],
    };
    let y = virtualsnip::calc(&req);
    assert_eq!(
        y,
        Response {
            texts: vec![Text {
                line: 3,
                chunks: vec![(" \nend".to_string(), "Comment".to_string())]
            }]
        }
    );
}

#[test]
fn calc_with_nodes_gives_the_rest_of_the_snippet() {
    let req = Request {
        highlight: Highlight { base: "Comment".into() },
        sign: "".into(),
        start_line: 2,
        cursor_line: 3,
        lines: vec!["fn main(){".into(), "    if a == b {".into()],
        snippets: vec![if_snippet()],
        sources: vec![],
    };
    let y = virtualsnip::calc(&req);
    assert_eq!(
        y,
        Response {
            texts: vec![Text {
                line: 3,
                chunks: vec![("unimplemented!();\n}".to_string(), "Comment".to_string())]
            }]
        }
    );
}

#[test]
fn calc_twice_gives_the_same_response() {
    let make = || Request {
        highlight: Highlight { base: "Comment".into() },
        sign: ">".into(),
        start_line: 0,
        cursor_line: 1,
        lines: vec!["fn main(){".into(), "    if a == b {".into()],
        snippets: vec![if_snippet()],
        sources: vec![vec![body(&["if ${1:true} then", "\t$0", "end"])]],
    };
    let a = virtualsnip::calc(&make());
    let b = virtualsnip::calc(&make());
    assert_eq!(a, b);
    assert_eq!(a.texts.len(), 1);
    assert_eq!(a.texts[0].line, 1);
}

#[test]
fn calc_without_snippets_is_empty() {
    let req = Request {
        highlight: Highlight { base: "Comment".into() },
        sign: " ".into(),
        start_line: 0,
        cursor_line: 0,
        lines: vec!["    if a == b {".into()],
        snippets: vec![],
        sources: vec![vec![body(&["${0|a,,b|}"])]],
    };
    assert_eq!(virtualsnip::calc(&req), Response { texts: vec![] });
}

#[test]
fn calc_stops_at_the_lines_given() {
    let req = Request {
        highlight: Highlight { base: "Comment".into() },
        sign: "".into(),
        start_line: 5,
        cursor_line: 9,
        lines: vec!["    if a == b {".into()],
        snippets: vec![if_snippet()],
        sources: vec![],
    };
    let y = virtualsnip::calc(&req);
    assert_eq!(y.texts.len(), 1);
    assert_eq!(y.texts[0].line, 5);
    let backwards = Request { start_line: 3, cursor_line: 2, ..req };
    assert_eq!(virtualsnip::calc(&backwards), Response { texts: vec![] });
}

#[test]
fn find_on_empty_line_or_span_is_zero() {
    assert_eq!(find("", &if_snippet()), Found { num: 0, hit: 0, num_first: 0 });
    assert_eq!(find("if", &[]), Found { num: 0, hit: 0, num_first: 0 });
}

#[test]
fn find_counts_words_of_the_first_text() {
    let snippet = vec![t("  for i in  "), ph(vec![]), t(" do ")];
    // first text words: "for", "i", "in"; later unit: "do"
    assert_eq!(find("for i in xs do", &snippet), Found { num: 4, hit: 3, num_first: 3 });
    // "i" is found inside "if" and counts for nothing; the search stops at "in"
    assert_eq!(find("for if", &snippet), Found { num: 4, hit: 1, num_first: 3 });
}

#[test]
fn find_moves_past_each_match() {
    let snippet = vec![t("a("), ph(vec![]), t(")"), ph(vec![]), t(")")];
    assert_eq!(find("a(x)", &snippet), Found { num: 3, hit: 2, num_first: 1 });
    assert_eq!(find("a(x))", &snippet), Found { num: 3, hit: 3, num_first: 1 });
}

#[test]
fn contains_empty_and_missing() {
    let s: Vec<char> = "abc".chars().collect();
    assert_eq!(contains(&s, ""), Some(0));
    assert_eq!(contains(&[], ""), Some(0));
    assert_eq!(contains(&s, "abcd"), None);
    assert_eq!(contains(&s, "bd"), None);
    let u: Vec<char> = "ééé if".chars().collect();
    assert_eq!(contains(&u, "if"), Some(4));
}

#[test]
fn first_text_skips_leading_placeholders() {
    let nodes = vec![ph(vec![]), ph(vec![t("x")]), t(" = "), ph(vec![])];
    assert_eq!(first_text(&nodes), &nodes[2..]);
    let none = vec![ph(vec![t("x")])];
    assert!(first_text(&none).is_empty());
}

#[test]
fn select_best_prefers_ratio_then_first() {
    let fs = vec![
        Found { num: 3, hit: 1, num_first: 1 },
        Found { num: 2, hit: 1, num_first: 1 },
        Found { num: 4, hit: 2, num_first: 1 },
        Found { num: 0, hit: 0, num_first: 0 },
    ];
    assert_eq!(select_best(&fs, false), Some(1));
    let complete = vec![Found { num: 2, hit: 2, num_first: 1 }, Found { num: 3, hit: 1, num_first: 1 }];
    assert_eq!(select_best(&complete, false), Some(0));
    assert_eq!(select_best(&complete, true), Some(1));
    assert_eq!(select_best(&[Found { num: 3, hit: 0, num_first: 1 }], false), None);
}

#[test]
fn tail_of_span() {
    let s = if_snippet();
    // opening text not fully typed: the whole span is left
    let all = tail(&s, &Found { num: 3, hit: 0, num_first: 1 });
    assert_eq!(all, if_snippet());
    // every text typed: nothing is left
    assert!(tail(&s, &Found { num: 3, hit: 3, num_first: 1 }).is_empty());
    // only a placeholder would be left: nothing to show
    let p = vec![t("local "), ph(vec![])];
    assert!(tail(&p, &Found { num: 1, hit: 1, num_first: 1 }).is_empty());
}

#[test]
fn text_renders_children() {
    let n = ph(vec![t("a"), Node::Variable(NodeVariable { children: vec![t("b"), ph(vec![])] }), t("c")]);
    assert_eq!(text(&n), "abc");
    assert_eq!(text(&t("x\ny")), "x\ny");
}
