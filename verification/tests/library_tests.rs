use mdforge::forge::args::{eval_dynamic_args, parse_args, validate_args};
use mdforge::forge::inline::parse_inline_exts;
use mdforge::forge::{DomRenderer, EvalContext, Forge};
use mdforge::{
    ArgType, ArgValue, BlockNode, Diagnostic, ErrorCode, InlineExt, Level, MdEvent, Node, Span,
    VElement, VNode,
};

struct TagRenderer;

impl DomRenderer for TagRenderer {
    fn render_block(&self, block: &BlockNode, _ctx: &EvalContext, children: Vec<VNode>) -> VNode {
        VNode::Element(VElement { tag: format!("block:{}", block.name), attrs: vec![], children })
    }

    fn render_inline(&self, inline: &InlineExt, _ctx: &EvalContext) -> VNode {
        VNode::Element(VElement {
            tag: format!("inline:{}", inline.name),
            attrs: vec![],
            children: vec![],
        })
    }
}

fn error(code: ErrorCode, message: &str, start: usize, end: usize, suggestion: Option<&str>) -> Diagnostic {
    Diagnostic {
        level: Level::Error,
        code,
        message: message.to_string(),
        span: Span { start, end },
        suggestion: suggestion.map(|s| s.to_string()),
    }
}

fn markdown(text: &str) -> Node {
    Node::Markdown(vec![MdEvent::Text(text.to_string())])
}

fn ctx_with(name: &str, values: &[&str]) -> EvalContext {
    EvalContext {
        dynamic_values: vec![(name.to_string(), values.iter().map(|v| v.to_string()).collect())],
    }
}

fn block_args(node: &Node) -> &Vec<(String, ArgValue)> {
    match node {
        Node::Block(b) => &b.args,
        other => panic!("expected a block, got {:?}", other),
    }
}

// ----- parse -----

#[test]
fn parse_plain_markdown_is_one_text_node() {
    let forge = Forge::builder().build();
    let doc = forge.parse("hello\nworld").expect("plain text parses");
    assert_eq!(doc.nodes, vec![markdown("hello\nworld\n")]);
}

#[test]
fn parse_empty_input_has_no_nodes() {
    let forge = Forge::builder().build();
    let doc = forge.parse("").expect("empty input parses");
    assert!(doc.nodes.is_empty());
}

#[test]
fn parse_top_level_fence_is_markdown() {
    let forge = Forge::builder().build();
    let doc = forge.parse(":::\nx").expect("a lone fence at the top is text");
    assert_eq!(doc.nodes, vec![markdown(":::\nx\n")]);
}

#[test]
fn parse_crlf_lines_lose_their_carriage_return() {
    let forge = Forge::builder().build();
    let doc = forge.parse("a\r\nb\r\n").expect("parses");
    assert_eq!(doc.nodes, vec![markdown("a\nb\n")]);
}

#[test]
fn parse_final_carriage_return_without_newline_is_kept() {
    let forge = Forge::builder().build();
    let doc = forge.parse("a\r").expect("parses");
    assert_eq!(doc.nodes, vec![markdown("a\r\n")]);
}

#[test]
fn parse_nested_blocks_and_spans() {
    let forge = Forge::builder().build();
    let doc = forge.parse("intro\n:::a\n:::b\nin\n:::\nout\n:::\n").expect("nested blocks parse");
    assert_eq!(doc.nodes.len(), 2);
    assert_eq!(doc.nodes[0], markdown("intro\n"));
    match &doc.nodes[1] {
        Node::Block(a) => {
            assert_eq!(a.name, "a");
            assert_eq!(a.span, Span { start: 6, end: 10 });
            assert_eq!(a.body.len(), 2);
            match &a.body[0] {
                Node::Block(b) => {
                    assert_eq!(b.name, "b");
                    assert_eq!(b.span, Span { start: 11, end: 15 });
                    assert_eq!(b.body, vec![markdown("in\n")]);
                }
                other => panic!("expected block b, got {:?}", other),
            }
            assert_eq!(a.body[1], markdown("out\n"));
        }
        other => panic!("expected block a, got {:?}", other),
    }
}

#[test]
fn parse_argument_values_and_duplicate_keys() {
    let forge = Forge::builder().build();
    let doc = forge
        .parse(":::card a=1 a=x b=+5 c=-0 d=-9223372036854775808 e=9223372036854775808 f= g=1=2\n:::\n")
        .expect("parses");
    let args = block_args(&doc.nodes[0]);
    assert_eq!(
        *args,
        vec![
            ("a".to_string(), ArgValue::String("x".to_string())),
            ("b".to_string(), ArgValue::Int(5)),
            ("c".to_string(), ArgValue::Int(0)),
            ("d".to_string(), ArgValue::Int(i64::MIN)),
            ("e".to_string(), ArgValue::String("9223372036854775808".to_string())),
            ("f".to_string(), ArgValue::String(String::new())),
            ("g".to_string(), ArgValue::String("1=2".to_string())),
        ]
    );
}

#[test]
fn parse_reports_argument_without_equals() {
    let forge = Forge::builder().build();
    let diags = forge.parse("x\n:::card title ok=1\n:::\n").expect_err("bad argument");
    assert_eq!(
        diags,
        vec![error(
            ErrorCode::InvalidType,
            "invalid argument 'title', expected key=value",
            2,
            7,
            None
        )]
    );
}

#[test]
fn parse_reports_unclosed_block_exactly() {
    let forge = Forge::builder().build();
    let diags = forge.parse(":::card\ncontent").expect_err("unclosed");
    assert_eq!(
        diags,
        vec![error(
            ErrorCode::BlockNotClosed,
            "block 'card' is not closed",
            0,
            7,
            Some("add a closing ::: line")
        )]
    );
}

#[test]
fn parse_reports_each_unclosed_block_inner_first() {
    let forge = Forge::builder().build();
    let diags = forge.parse(":::a\n:::b\nx").expect_err("both unclosed");
    assert_eq!(
        diags,
        vec![
            error(ErrorCode::BlockNotClosed, "block 'b' is not closed", 5, 9, Some("add a closing ::: line")),
            error(ErrorCode::BlockNotClosed, "block 'a' is not closed", 0, 4, Some("add a closing ::: line")),
        ]
    );
}

#[test]
fn parse_args_direct_call() {
    let tokens = ["k=v", "bare", "n=42"];
    let mut diags = Vec::new();
    let args = parse_args(&tokens, 10, &mut diags);
    assert_eq!(
        args,
        vec![
            ("k".to_string(), ArgValue::String("v".to_string())),
            ("n".to_string(), ArgValue::Int(42)),
        ]
    );
    assert_eq!(
        diags,
        vec![error(ErrorCode::InvalidType, "invalid argument 'bare', expected key=value", 10, 14, None)]
    );
}

// ----- inline extensions -----

#[test]
fn inline_spans_are_byte_offsets() {
    let exts = parse_inline_exts("é {b k=1 flag} {} { } {c");
    assert_eq!(exts.len(), 1);
    assert_eq!(exts[0].name, "b");
    assert_eq!(exts[0].span, Span { start: 3, end: 15 });
    assert_eq!(exts[0].args, vec![("k".to_string(), ArgValue::Int(1))]);
}

#[test]
fn inline_content_may_hold_an_open_brace() {
    let exts = parse_inline_exts("{a {b} x {c d=e}");
    assert_eq!(exts.len(), 2);
    assert_eq!(exts[0].name, "a");
    assert!(exts[0].args.is_empty());
    assert_eq!(exts[0].span, Span { start: 0, end: 6 });
    assert_eq!(exts[1].name, "c");
    assert_eq!(exts[1].args, vec![("d".to_string(), ArgValue::String("e".to_string()))]);
    assert_eq!(exts[1].span, Span { start: 9, end: 16 });
}

// ----- validate -----

fn card_forge() -> Forge {
    Forge::builder()
        .block("card")
        .arg("title", ArgType::String.required())
        .arg("level", ArgType::Int.optional())
        .arg("kind", ArgType::StaticEnum(&["a", "b"]).optional())
        .arg("ref", ArgType::DynamicEnum("items").optional())
        .body_markdown()
        .register()
        .inline("badge")
        .arg("level", ArgType::Int.required())
        .register()
        .build()
}

#[test]
fn validate_reports_unknown_block() {
    let forge = card_forge();
    let doc = forge.parse(":::x\n:::\n").expect("parses");
    assert_eq!(
        forge.validate(&doc).expect_err("unknown block"),
        vec![error(ErrorCode::UnknownBlock, "unknown block 'x'", 0, 4, None)]
    );
}

#[test]
fn validate_reports_unknown_inline() {
    let forge = card_forge();
    let doc = forge.parse("a {zz k=1}\n").expect("parses");
    assert_eq!(
        forge.validate(&doc).expect_err("unknown inline"),
        vec![error(ErrorCode::UnknownInline, "unknown inline 'zz'", 2, 10, None)]
    );
}

#[test]
fn validate_reports_missing_then_unknown_and_invalid() {
    let forge = card_forge();
    let doc = forge.parse(":::card level=abc kind=c other=1\n:::\n").expect("parses");
    let diags = forge.validate(&doc).expect_err("invalid");
    assert_eq!(
        diags,
        vec![
            error(ErrorCode::MissingRequiredArg, "missing required arg 'title'", 0, 32, None),
            error(ErrorCode::InvalidType, "invalid type for arg 'level'", 0, 32, None),
            error(ErrorCode::InvalidStaticEnumValue, "'c' is not in static enum", 0, 32, Some("allowed: a, b")),
            error(ErrorCode::UnknownArg, "unknown arg 'other'", 0, 32, None),
        ]
    );
}

#[test]
fn validate_int_for_string_enum_and_dynamic_is_invalid_type() {
    let forge = card_forge();
    let doc = forge.parse(":::card title=5 kind=3 ref=7\n:::\n").expect("parses");
    let diags = forge.validate(&doc).expect_err("invalid types");
    assert_eq!(
        diags,
        vec![
            error(ErrorCode::InvalidType, "invalid type for arg 'title'", 0, 28, None),
            error(ErrorCode::InvalidType, "invalid type for arg 'kind'", 0, 28, None),
            error(ErrorCode::InvalidType, "invalid type for arg 'ref'", 0, 28, None),
        ]
    );
}

#[test]
fn validate_leaves_dynamic_enum_values_to_eval() {
    let forge = card_forge();
    let doc = forge.parse(":::card title=t ref=anything\n:::\n").expect("parses");
    assert!(forge.validate(&doc).is_ok());
    let diags = forge.eval(&doc, &ctx_with("items", &["x"])).expect_err("not allowed");
    assert_eq!(diags.len(), 1);
    assert_eq!(diags[0].code, ErrorCode::InvalidDynamicEnumValue);
}

#[test]
fn validate_args_direct_call() {
    let actual = vec![("n".to_string(), ArgValue::String("x".to_string()))];
    let spec = vec![("n".to_string(), ArgType::Int.required())];
    let mut diags = Vec::new();
    validate_args(&actual, &spec, Span { start: 1, end: 2 }, &mut diags);
    assert_eq!(diags, vec![error(ErrorCode::InvalidType, "invalid type for arg 'n'", 1, 2, None)]);
}

// ----- eval -----

#[test]
fn eval_reports_missing_dynamic_enum() {
    let forge = card_forge();
    let doc = forge.parse(":::card title=t ref=item-1\n:::\n").expect("parses");
    assert_eq!(
        forge.eval(&doc, &EvalContext::default()).expect_err("not provided"),
        vec![error(ErrorCode::InvalidDynamicEnumValue, "dynamic enum 'items' is not provided", 0, 26, None)]
    );
}

#[test]
fn eval_suggests_sorted_distinct_candidates() {
    let forge = card_forge();
    let doc = forge.parse(":::card title=t ref=item-1\n:::\n").expect("parses");
    let ctx = ctx_with("items", &["item-3", "item-2", "item-3"]);
    assert_eq!(
        forge.eval(&doc, &ctx).expect_err("not in enum"),
        vec![error(
            ErrorCode::InvalidDynamicEnumValue,
            "'item-1' is not in dynamic enum 'items'",
            0,
            26,
            Some("allowed: item-2, item-3")
        )]
    );
}

#[test]
fn eval_gives_back_the_context() {
    let forge = card_forge();
    let doc = forge.parse(":::card title=t ref=item-2\n:::\n").expect("parses");
    let ctx = ctx_with("items", &["item-2"]);
    assert_eq!(forge.eval(&doc, &ctx).expect("allowed"), ctx);
}

#[test]
fn eval_ignores_what_validation_reports() {
    let forge = card_forge();
    let doc = forge.parse(":::x\n:::\n:::card ref=5 level=no\n:::\ntext {zz} {badge}\n").expect("parses");
    assert!(forge.validate(&doc).is_err());
    assert!(forge.eval(&doc, &EvalContext::default()).is_ok());
}

#[test]
fn eval_dynamic_args_direct_call() {
    let actual = vec![("r".to_string(), ArgValue::String("b".to_string()))];
    let spec = vec![("r".to_string(), ArgType::DynamicEnum("ns").required())];
    let mut diags = Vec::new();
    eval_dynamic_args(&actual, &spec, Span { start: 3, end: 4 }, &ctx_with("ns", &["c", "a"]), &mut diags);
    assert_eq!(
        diags,
        vec![error(ErrorCode::InvalidDynamicEnumValue, "'b' is not in dynamic enum 'ns'", 3, 4, Some("allowed: a, c"))]
    );
}

// ----- render -----

#[test]
fn render_valid_document_succeeds() {
    let forge = card_forge();
    let doc = forge.parse("top {badge level=1}\n:::card title=t\nin\n:::\n").expect("parses");
    assert!(forge.validate(&doc).is_ok());
    let dom = forge.render_dom(&doc, &EvalContext::default(), &TagRenderer).expect("renders");
    assert_eq!(dom.len(), 4);
    assert_eq!(dom[0], VNode::Text("top ".to_string()));
    assert!(matches!(&dom[1], VNode::Element(e) if e.tag == "inline:badge"));
    assert_eq!(dom[2], VNode::Text("\n".to_string()));
    match &dom[3] {
        VNode::Element(e) => {
            assert_eq!(e.tag, "block:card");
            assert_eq!(e.children, vec![VNode::Text("in\n".to_string())]);
        }
        other => panic!("expected block element, got {:?}", other),
    }
}

#[test]
fn render_plain_text_passes_through() {
    let forge = Forge::builder().build();
    let doc = forge.parse("just text\nmore").expect("parses");
    let dom = forge.render_dom(&doc, &EvalContext::default(), &TagRenderer).expect("renders");
    assert_eq!(dom, vec![VNode::Text("just text\nmore\n".to_string())]);
}

#[test]
fn render_reports_unknown_extensions() {
    let forge = Forge::builder().build();
    let doc = forge.parse("é {zz}\n:::x\n:::\n").expect("parses");
    assert_eq!(
        forge.render_dom(&doc, &EvalContext::default(), &TagRenderer).expect_err("unknown"),
        vec![
            error(ErrorCode::UnknownInline, "unknown inline 'zz'", 3, 7, None),
            error(ErrorCode::UnknownBlock, "unknown block 'x'", 8, 12, None),
        ]
    );
}

// ----- signature -----

#[test]
fn signature_labels() {
    assert_eq!(ArgType::Int.signature_label(true), "<int>");
    assert_eq!(ArgType::String.signature_label(false), "<string?>");
    assert_eq!(ArgType::StaticEnum(&["a", "b"]).signature_label(true), "<a|b>");
    assert_eq!(ArgType::StaticEnum(&["a", "b"]).signature_label(false), "<a|b?>");
    assert_eq!(ArgType::DynamicEnum("x").signature_label(false), "<dynamic:x?>");
    assert_eq!(ArgType::StaticEnum(&[]).signature_label(false), "<?>");
    assert_eq!(ArgType::StaticEnum(&["a>"]).signature_label(false), "<a?>");
}

#[test]
fn signature_of_empty_forge_is_empty() {
    assert_eq!(Forge::builder().build().signature(), "");
}

#[test]
fn signature_without_args_or_body() {
    let forge = Forge::builder().block("x").register().inline("y").register().block("z").body_markdown().register().build();
    assert_eq!(forge.signature(), "Block: x\n:::x\n\nBlock: z\n:::z\nBody: markdown\n\nInline: y\n{y}");
}

#[test]
fn required_and_optional_specs() {
    let r = ArgType::Int.required();
    assert!(r.required);
    assert_eq!(r.arg_type, ArgType::Int);
    let o = ArgType::DynamicEnum("d").optional();
    assert!(!o.required);
    assert_eq!(o.arg_type, ArgType::DynamicEnum("d"));
}

// ----- cloning -----

#[test]
fn documents_and_dom_nodes_clone_equal() {
    let forge = Forge::builder().build();
    let doc = forge.parse("a\n:::x k=1 s=t\n:::y\nin\n:::\n:::\n").expect("parses");
    let copy = doc.clone();
    assert_eq!(copy, doc);
    if let Node::Block(b) = &doc.nodes[1] {
        assert_eq!(b.clone(), *b);
        assert_eq!(doc.nodes[1].clone(), doc.nodes[1]);
    } else {
        panic!("expected a block");
    }
    let dom = VNode::Element(VElement {
        tag: "p".to_string(),
        attrs: vec![("class".to_string(), "x".to_string())],
        children: vec![VNode::Text("t".to_string()), VNode::Element(VElement { tag: "b".to_string(), attrs: vec![], children: vec![] })],
    });
    assert_eq!(dom.clone(), dom);
}

fn run_pipeline(forge: &Forge, input: &str, renderer: &dyn DomRenderer) -> Result<Vec<VNode>, Vec<Diagnostic>> {
    let doc = forge.parse(input)?;
    forge.validate(&doc)?;
    let ctx = forge.eval(&doc, &EvalContext::default())?;
    forge.render_dom(&doc, &ctx, renderer)
}

#[test]
fn render_through_a_trait_object() {
    let forge = card_forge();
    let nodes = run_pipeline(&forge, ":::card title=t\nx {badge level=3}\n:::\n", &TagRenderer).expect("pipeline");
    assert_eq!(nodes.len(), 1);
    match &nodes[0] {
        VNode::Element(e) => {
            assert_eq!(e.tag, "block:card");
            assert_eq!(e.children.len(), 3);
            assert_eq!(e.children[0], VNode::Text("x ".to_string()));
            assert!(matches!(&e.children[1], VNode::Element(i) if i.tag == "inline:badge"));
            assert_eq!(e.children[2], VNode::Text("\n".to_string()));
        }
        other => panic!("expected block element, got {:?}", other),
    }
    let errs = run_pipeline(&forge, ":::card\n:::\n", &TagRenderer).expect_err("missing title");
    assert_eq!(errs[0].code, ErrorCode::MissingRequiredArg);
}

#[test]
fn lone_signs_stay_strings_and_leading_zeros_read() {
    let forge = Forge::builder().build();
    let doc = forge.parse(":::b p=+ m=- z=007 n=-12\n:::\n").expect("parses");
    assert_eq!(
        *block_args(&doc.nodes[0]),
        vec![
            ("p".to_string(), ArgValue::String("+".to_string())),
            ("m".to_string(), ArgValue::String("-".to_string())),
            ("z".to_string(), ArgValue::Int(7)),
            ("n".to_string(), ArgValue::Int(-12)),
        ]
    );
}

#[test]
fn candidates_are_sorted_by_code_point() {
    let actual = vec![("r".to_string(), ArgValue::String("q".to_string()))];
    let spec = vec![("r".to_string(), ArgType::DynamicEnum("ns").required())];
    let mut diags = Vec::new();
    eval_dynamic_args(&actual, &spec, Span { start: 0, end: 1 }, &ctx_with("ns", &["é", "z", "a", "Z"]), &mut diags);
    assert_eq!(diags.len(), 1);
    assert_eq!(diags[0].suggestion, Some("allowed: Z, a, z, é".to_string()));
}

#[test]
fn render_keeps_text_outside_extensions() {
    let forge = Forge::builder().inline("b").register().build();
    let doc = forge.parse("x{b}{b k=1}y é {b}").expect("parses");
    let dom = forge.render_dom(&doc, &EvalContext::default(), &TagRenderer).expect("renders");
    let mut text = String::new();
    let mut inlines = 0;
    for n in &dom {
        match n {
            VNode::Text(t) => text.push_str(t),
            VNode::Element(e) => {
                assert_eq!(e.tag, "inline:b");
                inlines += 1;
            }
        }
    }
    assert_eq!(text, "xy é \n");
    assert_eq!(inlines, 3);
    assert_eq!(dom.len(), 6);
}

#[test]
fn block_spans_select_their_opening_line() {
    let forge = Forge::builder().build();
    let input = "a\n:::card k=1\nx\n:::ü\n:::\n:::\n";
    let doc = forge.parse(input).expect("parses");
    match &doc.nodes[1] {
        Node::Block(b) => {
            assert_eq!(&input[b.span.start..b.span.end], ":::card k=1");
            match &b.body[1] {
                Node::Block(inner) => assert_eq!(&input[inner.span.start..inner.span.end], ":::ü"),
                other => panic!("expected inner block, got {:?}", other),
            }
        }
        other => panic!("expected block, got {:?}", other),
    }
}

#[test]
fn offsets_count_one_byte_per_line_ending() {
    let forge = Forge::builder().build();
    let doc = forge.parse("a\r\n:::b\r\n:::\r\n").expect("parses");
    match &doc.nodes[1] {
        Node::Block(b) => assert_eq!(b.span, Span { start: 2, end: 6 }),
        other => panic!("expected block, got {:?}", other),
    }
}

#[test]
fn parse_args_with_a_far_start_and_only_pairs() {
    let mut diags = Vec::new();
    let args = parse_args(&["a=1", "b=x"], usize::MAX, &mut diags);
    assert_eq!(
        args,
        vec![
            ("a".to_string(), ArgValue::Int(1)),
            ("b".to_string(), ArgValue::String("x".to_string())),
        ]
    );
    assert!(diags.is_empty());
}
