use boldify::ast::{ContainerNode, ContainerType, InlineNode, ListItemNode, NodeBase, Span, TextNode};
use boldify::converter::convert;
use boldify::error::{ParseError, SourcePosition};
use boldify::service::{ContentService, ServiceError};
use boldify::syntax::{Parser, SupportedSymbol};

struct MockParser {
    result: Result<Vec<ContainerNode>, ParseError>,
}

impl MockParser {
    fn ok(text: &str) -> Self {
        let text_node = TextNode {
            base: NodeBase::new(1, Span::new(0, text.len())),
            text: text.to_string(),
        };
        let container = ContainerNode {
            base: NodeBase::new(2, Span::new(0, text.len())),
            container_type: ContainerType::Text,
            children: vec![InlineNode::Text(text_node)],
        };
        Self {
            result: Ok(vec![container]),
        }
    }

    fn err(symbol: &str) -> Self {
        Self {
            result: Err(ParseError::UnsupportedSymbol {
                symbol: symbol.to_string(),
                position: SourcePosition {
                    line: 1,
                    column: 1,
                    byte_offset: 0,
                },
            }),
        }
    }
}

impl Parser for MockParser {
    fn parse(&self, _input: &str) -> Result<Vec<ContainerNode>, ParseError> {
        self.result.clone()
    }
    fn supported_symbols(&self) -> Vec<SupportedSymbol> {
        vec![SupportedSymbol {
            symbol: "**".to_string(),
            description: "Gras".to_string(),
            example: "**gras**".to_string(),
        }]
    }
}

#[test]
fn syntaxe_markdown_route_vers_markdown_parser() {
    let svc = ContentService::new();
    assert!(svc.convert("markdown", "texte simple").is_ok());
}

#[test]
fn alias_md_accepte() {
    let svc = ContentService::new();
    assert!(svc.convert("md", "texte simple").is_ok());
}

#[test]
fn syntaxe_html_route_vers_html_parser() {
    let svc = ContentService::new();
    assert!(svc.convert("html", "<strong>test</strong>").is_ok());
}

#[test]
fn syntaxe_inconnue_retourne_unsupported_syntax() {
    let svc = ContentService::new();
    let result = svc.convert("xml", "contenu");
    assert!(matches!(result, Err(ServiceError::UnsupportedSyntax(s)) if s == "xml"));
}

#[test]
fn syntaxe_majuscule_acceptee() {
    let svc = ContentService::new();
    assert!(svc.convert("Markdown", "texte simple").is_ok());
}

#[test]
fn contenu_vide_retourne_chaine_vide_sans_appel_parser() {
    let svc = ContentService::new();
    assert_eq!(svc.convert("markdown", "").unwrap(), "");
}

#[test]
fn contenu_espaces_seuls_retourne_chaine_vide() {
    let svc = ContentService::new();
    assert_eq!(svc.convert("markdown", "   \n  \t  ").unwrap(), "");
}

#[test]
fn list_syntaxes_markdown_retourne_symboles_non_vide() {
    let svc = ContentService::new();
    assert!(!svc.list_syntaxes("markdown").unwrap().is_empty());
}

#[test]
fn list_syntaxes_html_retourne_symboles_non_vide() {
    let svc = ContentService::new();
    assert!(!svc.list_syntaxes("html").unwrap().is_empty());
}

#[test]
fn list_syntaxes_syntaxe_inconnue_retourne_erreur() {
    let svc = ContentService::new();
    assert!(matches!(
        svc.list_syntaxes("toml"),
        Err(ServiceError::UnsupportedSyntax(_))
    ));
}

#[test]
fn list_syntaxes_markdown_contient_double_etoile() {
    let svc = ContentService::new();
    let symbols = svc.list_syntaxes("markdown").unwrap();
    assert!(symbols.iter().any(|s| s.symbol == "**"));
}

#[test]
fn erreur_parser_propagee_comme_service_error_parse() {
    let svc = ContentService::new();
    let result = svc.convert("markdown", "# titre");
    assert!(matches!(result, Err(ServiceError::Parse(_))));
}

#[test]
fn mock_ok_retourne_texte_converti() {
    let parser = MockParser::ok("hello");
    let nodes = parser.parse("ignored").unwrap();
    let result = convert(&nodes);
    assert_eq!(result, "hello");
}

#[test]
fn mock_err_produit_une_erreur_parse() {
    let parser = MockParser::err("<div>");
    let err = parser.parse("ignored").unwrap_err();
    assert!(matches!(err, ParseError::UnsupportedSymbol { .. }));
}

#[test]
fn contenu_trop_grand_retourne_input_too_large() {
    let svc = ContentService::new();
    let huge = "a".repeat(10 * 1024 * 1024 + 1);
    let result = svc.convert("markdown", &huge);
    assert!(matches!(result, Err(ServiceError::InputTooLarge { .. })));
}

#[test]
fn contenu_a_la_limite_est_accepte() {
    let svc = ContentService::new();
    let at_limit = "a".repeat(10 * 1024 * 1024);
    let result = svc.convert("markdown", &at_limit);
    assert!(result.is_ok());
}
