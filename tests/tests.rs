use include_shader::{
    arrow_chain, find_directive, literal_value, single_path_argument, Action, ResolveError, Resolution,
};

const EMPTY: &str = "";

const NO_INCLUDE: &str = "precision mediump float;\n\nvoid main() {\n    gl_FragColor = vec4(1.0, 0.0, 0.0, 1.0);\n}\n";

const LUMINANCE: &str = "float luminance(vec3 color) {\n    return dot(color, vec3(0.299, 0.587, 0.114));\n}\n";

const RAND: &str = "float rand(vec2 co) {\n    return fract(sin(dot(co, vec2(12.9898, 78.233))) * 43758.5453);\n}\n";

const INCLUDES: &str = "uniform vec2 u_resolution;\n\n#include \"./tests/shaders/functions/luminance.glsl\"\n#include \"./tests/shaders/functions/rand.glsl\"\n\nvoid main() {\n    vec2 st = gl_FragCoord.xy / u_resolution.xy;\n    gl_FragColor = vec4(vec3(luminance(vec3(rand(st)))), 1.0);\n}\n";

fn shaders() -> Vec<(&'static str, &'static str)> {
    vec![
        ("tests/shaders/empty.glsl", EMPTY),
        ("tests/shaders/no_include.glsl", NO_INCLUDE),
        ("tests/shaders/includes.glsl", INCLUDES),
        ("tests/shaders/functions/luminance.glsl", LUMINANCE),
        ("tests/shaders/functions/rand.glsl", RAND),
    ]
}

fn canonical(path: &str) -> String {
    path.trim_start_matches("./").to_string()
}

/// Runs a resolution over documents held in memory.
fn resolve(root: &str, docs: &[(&str, &str)]) -> Result<String, ResolveError> {
    let (mut resolution, mut action) = Resolution::start(canonical(root));
    loop {
        action = match action {
            Action::Load { id } => match docs.iter().find(|(name, _)| *name == id) {
                Some((_, text)) => resolution.loaded(text.to_string()),
                None => resolution.load_failed(String::from("no such document")),
            },
            Action::Locate { literal, from: _ } => {
                let id = canonical(&literal);
                if docs.iter().any(|(name, _)| *name == id) {
                    resolution.located(id)
                } else {
                    resolution.locate_failed(String::from("no such path"))
                }
            }
            Action::Done { text } => return Ok(text),
            Action::Failed { error } => return Err(error),
        };
    }
}

#[test]
fn includes_empty_file() {
    let shader = resolve("tests/shaders/empty.glsl", &shaders()).unwrap();

    assert_eq!(shader, "");
}

#[test]
fn includes_file_with_no_include() {
    let shader = resolve("tests/shaders/no_include.glsl", &shaders()).unwrap();

    assert_eq!(shader, NO_INCLUDE);
}

#[test]
fn includes_file_with_includes() {
    let shader = resolve("tests/shaders/includes.glsl", &shaders()).unwrap();

    assert!(!shader.contains(r#"#include "./tests/shaders/functions/luminance.glsl"#));
    assert!(!shader.contains(r#"#include "./tests/shaders/functions/rand.glsl""#));
    assert!(shader.contains(LUMINANCE));
    assert!(shader.contains(RAND));
}

#[test]
fn directive_is_replaced_in_place() {
    let docs = [("a", "head\n#include \"b\"\ntail"), ("b", "BODY")];
    assert_eq!(resolve("a", &docs).unwrap(), "head\nBODY\ntail");
}

#[test]
fn directives_resolve_in_nested_order() {
    let docs = [("a", "1 #include \"b\" 4"), ("b", "2 #include  \"c\""), ("c", "3")];
    assert_eq!(resolve("a", &docs).unwrap(), "1 2 3 4");
}

#[test]
fn diamond_includes_shared_document_twice() {
    let docs = [
        ("a", "A[#include \"b\"\n|#include \"c\"\n]"),
        ("b", "B(#include \"d\")"),
        ("c", "C(#include \"d\")"),
        ("d", "D"),
    ];
    let out = resolve("a", &docs).unwrap();
    assert_eq!(out, "A[B(D)\n|C(D)\n]");
    assert_eq!(out.matches('D').count(), 2);
}

#[test]
fn mutual_inclusion_is_rejected_with_three_entry_cycle() {
    let docs = [("a", "#include \"b\""), ("b", "#include \"a\"")];
    match resolve("a", &docs) {
        Err(ResolveError::CircularDependency { cycle }) => {
            let aba = vec![String::from("a"), String::from("b"), String::from("a")];
            let bab = vec![String::from("b"), String::from("a"), String::from("b")];
            assert!(cycle == aba || cycle == bab);
        }
        other => panic!("expected a cycle, got {:?}", other),
    }
}

#[test]
fn self_inclusion_is_rejected() {
    let docs = [("a", "x #include \"a\" y")];
    match resolve("a", &docs) {
        Err(ResolveError::CircularDependency { cycle }) => {
            assert_eq!(cycle, vec![String::from("a"), String::from("a")]);
        }
        other => panic!("expected a cycle, got {:?}", other),
    }
}

#[test]
fn unreadable_document_is_reported() {
    let docs = [("a", "#include \"b\"")];
    let (mut resolution, _) = Resolution::start(String::from("a"));
    let action = resolution.loaded(String::from(docs[0].1));
    assert!(matches!(action, Action::Locate { ref literal, ref from } if literal == "b" && from == "a"));
    let action = resolution.located(String::from("b"));
    assert!(matches!(action, Action::Load { ref id } if id == "b"));
    match resolution.load_failed(String::from("denied")) {
        Action::Failed { error: ResolveError::DocumentUnreadable { id, cause } } => {
            assert_eq!(id, "b");
            assert_eq!(cause, "denied");
        }
        other => panic!("unexpected {:?}", other),
    }
}

#[test]
fn unresolvable_path_is_reported() {
    let docs = [("a", "#include \"missing\"")];
    match resolve("a", &docs) {
        Err(ResolveError::PathUnresolvable { literal, cause }) => {
            assert_eq!(literal, "missing");
            assert_eq!(cause, "no such path");
        }
        other => panic!("unexpected {:?}", other),
    }
}

#[test]
fn root_that_cannot_be_read_fails_at_once() {
    match resolve("nowhere", &[]) {
        Err(ResolveError::DocumentUnreadable { id, .. }) => assert_eq!(id, "nowhere"),
        other => panic!("unexpected {:?}", other),
    }
}

#[test]
fn directive_scan_splits_the_text() {
    let (before, path, after) = find_directive("x\n#include   \"lib/a.glsl\"\ny").unwrap();
    assert_eq!(before, "x\n");
    assert_eq!(path, "lib/a.glsl");
    assert_eq!(after, "\ny");
}

#[test]
fn directive_scan_takes_the_first_and_is_greedy_to_the_last_quote() {
    let (before, path, after) = find_directive("a #include \"p\" \"q\" b\n#include \"r\"").unwrap();
    assert_eq!(before, "a ");
    assert_eq!(path, "p\" \"q");
    assert_eq!(after, " b\n#include \"r\"");
}

#[test]
fn directive_scan_needs_whitespace_and_quotes() {
    assert!(find_directive("#include\"a\"").is_none());
    assert!(find_directive("#include a").is_none());
    assert!(find_directive("no directive here").is_none());
    assert!(find_directive("").is_none());
    assert!(find_directive("#include\n\"a\"").is_some());
}

#[test]
fn settle_once_with_directive_asks_for_its_path() {
    let (mut resolution, _) = Resolution::start(String::from("root"));
    let found = Some((String::from("x "), String::from("p"), String::from(" y")));
    match resolution.settle_once(String::from("x #include \"p\" y"), found) {
        Ok(Action::Locate { literal, from }) => {
            assert_eq!(literal, "p");
            assert_eq!(from, "root");
        }
        other => panic!("unexpected {:?}", other),
    }
    assert!(resolution.is_locating());
}

#[test]
fn settle_once_without_directive_finishes_the_root() {
    let (mut resolution, _) = Resolution::start(String::from("root"));
    match resolution.settle_once(String::from("plain"), None) {
        Ok(Action::Done { text }) => assert_eq!(text, "plain"),
        other => panic!("unexpected {:?}", other),
    }
    assert!(!resolution.is_loading());
    assert!(!resolution.is_locating());
}

#[test]
fn settle_once_splices_into_the_waiting_document() {
    let (mut resolution, _) = Resolution::start(String::from("a"));
    let _ = resolution.loaded(String::from("L #include \"b\" R"));
    let _ = resolution.located(String::from("b"));
    assert!(resolution.is_loading());
    match resolution.settle_once(String::from("mid"), None) {
        Err(text) => assert_eq!(text, "L mid R"),
        other => panic!("unexpected {:?}", other),
    }
}

#[test]
fn literal_value_strips_the_quotes() {
    assert_eq!(literal_value("\"tests/shaders/empty.glsl\""), Some(String::from("tests/shaders/empty.glsl")));
    assert_eq!(literal_value("\"\""), Some(String::new()));
    assert_eq!(literal_value("\""), Some(String::new()));
    assert_eq!(literal_value("r\"raw\""), None);
    assert_eq!(literal_value("42"), None);
    assert_eq!(literal_value(""), None);
}

#[test]
fn single_path_argument_accepts_one_string_literal() {
    let one = vec![Some(String::from("\"src/a.glsl\""))];
    assert_eq!(single_path_argument(&one).unwrap(), "src/a.glsl");
}

#[test]
fn single_path_argument_rejects_anything_else() {
    let cases: Vec<Vec<Option<String>>> = vec![
        vec![],
        vec![None],
        vec![Some(String::from("7"))],
        vec![Some(String::from("\"a\"")), Some(String::from("\"b\""))],
    ];
    for tokens in cases {
        assert!(matches!(single_path_argument(&tokens), Err(ResolveError::MalformedInvocation)));
    }
}

#[test]
fn arrow_chain_joins_with_arrows() {
    let cycle = vec![String::from("a.glsl"), String::from("b.glsl"), String::from("a.glsl")];
    assert_eq!(arrow_chain(&cycle), "a.glsl -> b.glsl -> a.glsl");
    assert_eq!(arrow_chain(&vec![String::from("x")]), "x");
    assert_eq!(arrow_chain(&vec![]), "");
}
