use boldify::error::{ParseError, SourcePosition};
use boldify::id::NodeIdGen;
use boldify::ast::{ContainerType, InlineNode};
use boldify::html::HtmlParser;
use boldify::markdown::MarkdownParser;
use boldify::syntax::Parser;
use boldify::inline::parse_inline;
use boldify::handlers::FontHandler;
use boldify::service::{ContentService, MAX_SIZE, ServiceError};

#[test]
fn blank_content_converts_to_empty_text_whatever_the_syntax() {
    let svc = ContentService::new();
    assert_eq!(svc.convert("xml", " \n\t").unwrap(), "");
    assert_eq!(svc.convert("html", "").unwrap(), "");
}

#[test]
fn oversized_content_is_refused_first() {
    let svc = ContentService::new();
    let huge = "#".repeat(MAX_SIZE + 3);
    match svc.convert("xml", &huge) {
        Err(ServiceError::InputTooLarge { found, max }) => {
            assert_eq!(found, MAX_SIZE + 3);
            assert_eq!(max, MAX_SIZE);
        }
        _ => panic!("expected InputTooLarge"),
    }
}

#[test]
fn unknown_syntax_is_reported_lower_cased() {
    let svc = ContentService::new();
    match svc.convert("XML", "x") {
        Err(ServiceError::UnsupportedSyntax(s)) => assert_eq!(s, "xml"),
        _ => panic!("expected UnsupportedSyntax"),
    }
    match svc.list_syntaxes("Toml") {
        Err(ServiceError::UnsupportedSyntax(s)) => assert_eq!(s, "toml"),
        _ => panic!("expected UnsupportedSyntax"),
    }
}

#[test]
fn syntax_names_ignore_case() {
    let svc = ContentService::new();
    assert_eq!(
        svc.convert("HTML", "<b>x</b>").unwrap(),
        svc.convert("html", "<b>x</b>").unwrap()
    );
    assert_eq!(
        svc.convert("Md", "**x**").unwrap(),
        svc.convert("markdown", "**x**").unwrap()
    );
}

#[test]
fn service_error_messages() {
    assert_eq!(
        ServiceError::UnsupportedSyntax("xml".to_string()).to_string(),
        "Syntaxe non supportée : 'xml'. Syntaxes disponibles : markdown, html"
    );
    assert_eq!(
        ServiceError::InputTooLarge { found: 12, max: 10 }.to_string(),
        "Contenu trop volumineux : 12 octets (maximum : 10)"
    );
    let e = ServiceError::Parse(ParseError::InvalidHtml("oops".to_string()));
    assert_eq!(e.to_string(), "Erreur de parsing : Document HTML invalide : oops");
}

#[test]
fn parse_error_messages() {
    let pos = SourcePosition {
        line: 2,
        column: 3,
        byte_offset: 40,
    };
    assert_eq!(pos.to_string(), "ligne 2, colonne 3 (offset 40)");
    assert_eq!(
        ParseError::UnsupportedSymbol {
            symbol: "#".to_string(),
            position: pos,
        }
        .to_string(),
        "Symbole non supporté : `#` à la position ligne 2, colonne 3 (offset 40).\nConsultez la liste des syntaxes supportées via :\n- API HTTP : GET /syntaxes\n- MCP CLI  : mcp list"
    );
    assert_eq!(
        ParseError::InputTooLarge { found: 7, max: 5 }.to_string(),
        "Entrée trop volumineuse : 7 octets (maximum : 5)"
    );
    assert_eq!(
        ParseError::UnclosedTag {
            tag: "b".to_string(),
            position: pos,
        }
        .to_string(),
        "Balise HTML non fermée : `b` ouverte à ligne 2, colonne 3 (offset 40)"
    );
    assert_eq!(
        ParseError::NestingTooDeep { depth: 65, max: 64 }.to_string(),
        "Imbrication trop profonde : profondeur 65 (maximum : 64)"
    );
}

#[test]
fn a_plain_line_is_one_text_node_spanning_the_line() {
    let mut ids = NodeIdGen::new();
    let nodes = parse_inline("héllo, wörld", 4, 10, 2, &mut ids).unwrap();
    assert_eq!(nodes.len(), 1);
    match &nodes[0] {
        InlineNode::Text(t) => {
            assert_eq!(t.text, "héllo, wörld");
            assert_eq!(t.base.id, 1);
            assert_eq!(t.base.span.start, 10);
            assert_eq!(t.base.span.end, 10 + "héllo, wörld".len());
        }
        _ => panic!("expected a text node"),
    }
}

#[test]
fn identifiers_count_up_from_one() {
    let mut ids = NodeIdGen::new();
    assert_eq!(ids.next_id(), 1);
    assert_eq!(ids.next_id(), 2);
    assert_eq!(NodeIdGen::default().next_id(), 1);
}

#[test]
fn plain_text_passes_through_both_syntaxes() {
    let svc = ContentService::new();
    let text = "Bonjour, ça va ? Oui (100 %) !";
    assert_eq!(svc.convert("markdown", text).unwrap(), text);
    assert_eq!(svc.convert("html", text).unwrap(), text);
}

#[test]
fn a_plain_markdown_line_is_one_text_container() {
    let text = "Bonjour à tous";
    let nodes = MarkdownParser.parse(text).unwrap();
    assert_eq!(nodes.len(), 1);
    assert_eq!(nodes[0].container_type, ContainerType::Text);
    assert_eq!(nodes[0].base.id, 2);
    assert_eq!((nodes[0].base.span.start, nodes[0].base.span.end), (0, text.len()));
    match &nodes[0].children[..] {
        [InlineNode::Text(t)] => {
            assert_eq!(t.text, text);
            assert_eq!(t.base.id, 1);
            assert_eq!((t.base.span.start, t.base.span.end), (0, text.len()));
        }
        _ => panic!("expected one text node"),
    }
}

#[test]
fn a_plain_html_text_is_one_text_container() {
    let text = "Tom & Jerry — #1";
    let nodes = HtmlParser.parse(text).unwrap();
    assert_eq!(nodes.len(), 1);
    assert_eq!(nodes[0].container_type, ContainerType::Text);
    assert_eq!(nodes[0].base.id, 2);
    match &nodes[0].children[..] {
        [InlineNode::Text(t)] => {
            assert_eq!(t.text, text);
            assert_eq!(t.base.id, 1);
            assert_eq!((t.base.span.start, t.base.span.end), (0, text.len()));
        }
        _ => panic!("expected one text node"),
    }
}

#[test]
fn a_heading_on_the_first_line_is_refused_at_its_start() {
    match MarkdownParser.parse("# Titre\nsuite") {
        Err(ParseError::UnsupportedSymbol { symbol, position }) => {
            assert_eq!(symbol, "#");
            assert_eq!((position.line, position.column, position.byte_offset), (1, 1, 0));
        }
        _ => panic!("expected UnsupportedSymbol"),
    }
}

#[test]
fn an_unsupported_first_tag_is_refused_with_its_lowercase_name() {
    match HtmlParser.parse("<DIV class=\"a\">x</DIV>") {
        Err(ParseError::UnsupportedSymbol { symbol, position }) => {
            assert_eq!(symbol, "<div>");
            assert_eq!((position.line, position.column, position.byte_offset), (1, 1, 0));
        }
        _ => panic!("expected UnsupportedSymbol"),
    }
}

#[test]
fn bold_reads_the_same_from_markdown_and_html() {
    let svc = ContentService::new();
    let md = svc.convert("markdown", "**Ça marche, 100 % !**").unwrap();
    let html = svc.convert("html", "<strong>Ça marche, 100 % !</strong>").unwrap();
    assert_eq!(md, html);
    assert_eq!(
        md,
        boldify::handlers::bold_handler().apply("Ça marche, 100 % !")
    );
}

#[test]
fn plain_markdown_lines_convert_to_themselves_joined_by_line_breaks() {
    let svc = ContentService::new();
    let out = svc
        .convert("markdown", "  \nBonjour\n\n\nà tous\r\nfin\n \n")
        .unwrap();
    assert_eq!(out, "Bonjour\n\n\nà tous\nfin");
}

fn collect_ids(nodes: &[InlineNode], ids: &mut Vec<u64>) {
    for n in nodes {
        match n {
            InlineNode::Text(t) => {
                assert!(!t.text.is_empty());
                ids.push(t.base.id);
            }
            InlineNode::Container(c) => {
                collect_ids(&c.children, ids);
                ids.push(c.base.id);
            }
            InlineNode::ListItem(_) => panic!("no list item in inline output"),
        }
    }
    for pair in nodes.windows(2) {
        assert!(!matches!(pair, [InlineNode::Text(_), InlineNode::Text(_)]));
    }
}

#[test]
fn inline_identifiers_are_those_handed_out_one_each() {
    let mut ids = NodeIdGen::new();
    ids.next_id();
    ids.next_id();
    let nodes = parse_inline("a **b *c* \\*d** e ~~f~~", 1, 0, 1, &mut ids).unwrap();
    let mut seen = Vec::new();
    collect_ids(&nodes, &mut seen);
    let last = ids.next_id() - 1;
    assert_eq!(seen, (3..=last).collect::<Vec<u64>>());
}
