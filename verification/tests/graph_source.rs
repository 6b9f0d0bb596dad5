use duan::graph_source::{is_float_text, parse_param, parse_usize, sanitize, SourceSpec};

#[test]
fn parse_fixed() {
    let src = SourceSpec::parse("fixed:ef=8").unwrap();
    assert!(matches!(src, SourceSpec::FixedEdgeCount { edge_factor: 8 }));
    assert_eq!(src.cache_key_with(0), "ef8");
}

#[test]
fn parse_ba() {
    let src = SourceSpec::parse("ba:m=5").unwrap();
    assert!(matches!(src, SourceSpec::BarabasiAlbert { m: 5 }));
    assert_eq!(src.cache_key_with(0), "ba_m5");
}

#[test]
fn parse_ws() {
    let src = SourceSpec::parse("ws:k=6:beta=0.3").unwrap();
    if let SourceSpec::WattsStrogatz { k, beta } = src {
        assert_eq!(k, 6);
        let beta: f64 = beta.parse().unwrap();
        assert!((beta - 0.3).abs() < 1e-9);
    } else {
        panic!("expected WattsStrogatz");
    }
}

#[test]
fn parse_rg() {
    let src = SourceSpec::parse("rg:radius=0.1").unwrap();
    if let SourceSpec::RandomGeometric { radius } = src {
        let radius: f64 = radius.parse().unwrap();
        assert!((radius - 0.1).abs() < 1e-9);
    } else {
        panic!("expected RandomGeometric");
    }
}

#[test]
fn parse_grid() {
    let src = SourceSpec::parse("grid").unwrap();
    assert!(matches!(src, SourceSpec::Grid));
    assert_eq!(src.cache_key_with(0), "grid");
}

#[test]
fn parse_castro_random() {
    assert!(matches!(
        SourceSpec::parse("castro:d3").unwrap(),
        SourceSpec::CastroD3
    ));
    assert!(matches!(SourceSpec::parse("d3").unwrap(), SourceSpec::CastroD3));
    assert!(matches!(SourceSpec::parse("h3").unwrap(), SourceSpec::CastroH3));
}

#[test]
fn parse_castro_grids() {
    assert!(matches!(
        SourceSpec::parse("sgrided").unwrap(),
        SourceSpec::CastroSGridED
    ));
    assert!(matches!(
        SourceSpec::parse("rgrided").unwrap(),
        SourceSpec::CastroRGridED
    ));
    assert!(matches!(
        SourceSpec::parse("sgridr").unwrap(),
        SourceSpec::CastroSGridR
    ));
    assert!(matches!(
        SourceSpec::parse("rgridr").unwrap(),
        SourceSpec::CastroRGridR
    ));
}

#[test]
fn parse_dimacs() {
    let s = SourceSpec::parse("dimacs:name=USA-road-t.NY").unwrap();
    if let SourceSpec::DimacsRoad { name } = &s {
        assert_eq!(name, "USA-road-t.NY");
    } else {
        panic!("expected DimacsRoad");
    }
    assert_eq!(s.cache_key_with(0), "dimacs_USA-road-t_NY");
    assert!(s.ignores_node_count());
}

#[test]
fn parse_unknown_fails() {
    assert!(SourceSpec::parse("foo:x=1").is_err());
}

#[test]
fn parse_error_messages() {
    assert_eq!(
        SourceSpec::parse("  nonsense ").unwrap_err(),
        "expected 'type:params', got 'nonsense'"
    );
    assert_eq!(SourceSpec::parse("foo:x=1").unwrap_err(), "unknown graph source: foo");
    assert_eq!(SourceSpec::parse("fixed:m=3").unwrap_err(), "missing parameter 'ef'");
    assert_eq!(SourceSpec::parse("fixed:ef=x8").unwrap_err(), "invalid ef value: x8");
    assert_eq!(SourceSpec::parse("ba:m=-1").unwrap_err(), "invalid m value: -1");
    assert_eq!(SourceSpec::parse("ws:beta=0.5").unwrap_err(), "missing parameter 'k'");
    assert_eq!(SourceSpec::parse("ws:k=4").unwrap_err(), "missing parameter 'beta'");
    assert_eq!(SourceSpec::parse("ws:k=4:beta=abc").unwrap_err(), "invalid beta value: abc");
    assert_eq!(SourceSpec::parse("ws:k=z:beta=abc").unwrap_err(), "invalid k value: z");
    assert_eq!(SourceSpec::parse("rg:radius=").unwrap_err(), "invalid radius value: ");
    assert_eq!(SourceSpec::parse("dimacs:name=").unwrap_err(), "dimacs name cannot be empty");
}

#[test]
fn parse_trims_and_takes_first_parameter() {
    let src = SourceSpec::parse("\t fixed:ef=4:ef=9 \n").unwrap();
    assert!(matches!(src, SourceSpec::FixedEdgeCount { edge_factor: 4 }));
    let src = SourceSpec::parse("ws:beta=1e-2:k=+3").unwrap();
    match src {
        SourceSpec::WattsStrogatz { k, beta } => {
            assert_eq!(k, 3);
            assert_eq!(beta, "1e-2");
        }
        _ => panic!("expected WattsStrogatz"),
    }
    assert!(!SourceSpec::parse("grid").unwrap().ignores_node_count());
}

#[test]
fn cache_keys_of_float_families_use_scaled_parameter() {
    let ws = SourceSpec::parse("ws:k=6:beta=0.3").unwrap();
    assert_eq!(ws.cache_key_with(30), "ws_k6_b30");
    let rg = SourceSpec::parse("rg:radius=0.1").unwrap();
    assert_eq!(rg.cache_key_with(100), "rg_r100");
    assert_eq!(SourceSpec::parse("castro:rgridr").unwrap().cache_key_with(0), "castro_rgridr");
}

#[test]
fn parse_param_finds_first_match() {
    assert_eq!(parse_param("a=1:b=2:b=3", "b"), Ok("2"));
    assert_eq!(parse_param("x:b=2", "b"), Ok("2"));
    assert_eq!(parse_param("a=1", "b"), Err("missing parameter 'b'".to_string()));
    assert_eq!(parse_param("b=", "b"), Ok(""));
}

#[test]
fn parse_usize_follows_std() {
    for s in ["0", "42", "+7", "007", "18446744073709551615", "", "+", "-1", "1a", " 1", "18446744073709551616"] {
        assert_eq!(parse_usize(s), s.parse::<usize>().ok(), "input {:?}", s);
    }
}

#[test]
fn float_text_follows_std() {
    for s in [
        "0.3", "1", "1.", ".5", "-2.5e10", "+1E-3", "inf", "-Infinity", "NaN", "nan", "e5", ".", "",
        "1e", "1e+", "abc", " 1", "1.2.3", "0x10", "infinit", "+", "1_000",
    ] {
        assert_eq!(is_float_text(s), s.parse::<f64>().is_ok(), "input {:?}", s);
    }
}

#[test]
fn sanitize_replaces_non_name_chars() {
    assert_eq!(sanitize("USA-road-t.NY"), "USA-road-t_NY");
    assert_eq!(sanitize("a b/c_d"), "a_b_c_d");
    assert_eq!(sanitize("é"), "_");
}
