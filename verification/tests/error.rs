use boldify::error::{ParseError, SourcePosition};

#[test]
fn parse_error_unsupported_affiche_le_symbole() {
    let err = ParseError::UnsupportedSymbol {
        symbol: "<div>".to_string(),
        position: SourcePosition {
            line: 3,
            column: 7,
            byte_offset: 42,
        },
    };
    let msg = err.to_string();
    assert!(msg.contains("<div>"));
    assert!(msg.contains("GET /syntaxes"));
}

#[test]
fn source_position_affiche_ligne_et_colonne() {
    let pos = SourcePosition {
        line: 2,
        column: 5,
        byte_offset: 20,
    };
    assert!(pos.to_string().contains("ligne 2"));
    assert!(pos.to_string().contains("colonne 5"));
}
