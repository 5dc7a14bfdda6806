use leds::{default_layers, format_for_extension, import_format, import_format_for_extension, ImportError, ImportFormat};

fn unsupported(r: Result<ImportFormat, ImportError>) -> String {
    match r {
        Err(ImportError::UnsupportedFormat(m)) => m,
        other => panic!("unexpected {:?}", other),
    }
}

#[test]
fn svg_is_imported() {
    assert_eq!(import_format("drawings/letter.svg").unwrap(), ImportFormat::Svg);
    assert_eq!(import_format("LOGO.SVG").unwrap(), ImportFormat::Svg);
    assert_eq!(format_for_extension("svg").unwrap(), ImportFormat::Svg);
}

#[test]
fn dxf_is_refused_with_advice() {
    assert_eq!(
        unsupported(import_format("plan.DXF")),
        "DXF import scheduled for Phase 1.1 — use SVG export from Corel"
    );
}

#[test]
fn other_formats_are_refused() {
    assert_eq!(unsupported(import_format("plan.Pdf")), "pdf");
    assert_eq!(unsupported(import_format("noext")), "");
    assert_eq!(unsupported(import_format(".svg")), "");
    assert_eq!(unsupported(format_for_extension("eps")), "eps");
}

#[test]
fn svg_layers() {
    let layers = default_layers();
    assert_eq!(layers.len(), 1);
    assert_eq!(layers[0].name, "default");
    assert!(layers[0].visible);
}

#[test]
fn extension_alone_selects_the_importer() {
    assert_eq!(import_format_for_extension(Some("SVG")).unwrap(), ImportFormat::Svg);
    assert_eq!(unsupported(import_format_for_extension(None)), "");
    assert_eq!(unsupported(import_format_for_extension(Some("Ai"))), "ai");
    assert_eq!(
        unsupported(import_format_for_extension(Some("dxf"))),
        "DXF import scheduled for Phase 1.1 — use SVG export from Corel"
    );
}
