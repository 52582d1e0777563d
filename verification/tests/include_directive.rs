//! Values that come from other sources.
use noyalib::composition::from_str_with_resolver;
use noyalib::inclusion::{split_fragment, IncludeRequest, IncludeResolver, InputSource};
use noyalib::{from_str_with_config, Error, ParserConfig, Value};
use std::collections::HashMap;
use std::sync::{Arc, Mutex};

/// Reads a text with sources from a map.
fn read(
    yaml: &str,
    files: HashMap<&'static str, &'static str>,
    cfg: &ParserConfig,
) -> Result<Value, Error> {
    let resolver = IncludeResolver::new(
        move |req: IncludeRequest<'_>| -> Result<InputSource, Error> {
            let (path, _frag) = split_fragment(req.spec);
            match files.get(path) {
                Some(b) => Ok(InputSource::new(path, b)),
                None => Err(Error::Custom(format!(
                    "test mem resolver: missing `{path}`"
                ))),
            }
        },
    );
    from_str_with_resolver(yaml, cfg, &resolver)
}

#[test]
fn basic_include_substitutes_document_root() {
    let mut files = HashMap::new();
    let _ = files.insert("frag.yaml", "name: alpha\nversion: 1\n");
    let cfg = ParserConfig::new();
    let yaml = "service: !include frag.yaml\n";
    let v = read(yaml, files, &cfg).unwrap();
    let service = v.get("service").unwrap();
    assert_eq!(service.get("name").unwrap().as_str(), Some("alpha"));
    assert_eq!(service.get("version").unwrap().as_i64(), Some(1));
}

#[test]
fn nested_include_resolves_recursively() {
    let mut files = HashMap::new();
    let _ = files.insert("inner.yaml", "v: 99\n");
    let _ = files.insert("outer.yaml", "inner: !include inner.yaml\n");
    let cfg = ParserConfig::new();
    let yaml = "wrap: !include outer.yaml\n";
    let v = read(yaml, files, &cfg).unwrap();
    let inner = v.get("wrap").unwrap().get("inner").unwrap();
    assert_eq!(inner.get("v").unwrap().as_i64(), Some(99));
}

#[test]
fn fragment_anchor_narrows_to_named_key() {
    let mut files = HashMap::new();
    let _ = files.insert(
        "defs.yaml",
        "users:\n  admin: { role: root }\n  guest: { role: anon }\n",
    );
    let cfg = ParserConfig::new();
    let yaml = "u: !include defs.yaml#users\n";
    let v = read(yaml, files, &cfg).unwrap();
    let u = v.get("u").unwrap();
    let admin = u.get("admin").unwrap();
    let guest = u.get("guest").unwrap();
    assert_eq!(admin.get("role").unwrap().as_str(), Some("root"));
    assert_eq!(guest.get("role").unwrap().as_str(), Some("anon"));
}

#[test]
fn fragment_anchor_missing_key_errors_clearly() {
    let mut files = HashMap::new();
    let _ = files.insert("defs.yaml", "users:\n  admin: 1\n");
    let cfg = ParserConfig::new();
    let yaml = "u: !include defs.yaml#missing\n";
    let err = read(yaml, files, &cfg).unwrap_err().message();
    assert!(err.contains("fragment"), "{err}");
    assert!(err.contains("missing"), "{err}");
}

#[test]
fn cycle_detection_aborts_with_clear_error() {
    let mut files = HashMap::new();
    let _ = files.insert("a.yaml", "next: !include b.yaml\n");
    let _ = files.insert("b.yaml", "next: !include a.yaml\n");
    let cfg = ParserConfig::new();
    let yaml = "root: !include a.yaml\n";
    let err = read(yaml, files, &cfg).unwrap_err().message();
    assert!(err.contains("cycle"), "{err}");
}

#[test]
fn max_include_depth_caps_recursion() {
    // every answer asks again
    let resolver = IncludeResolver::new(
        |_req: IncludeRequest<'_>| -> Result<InputSource, Error> {
            Ok(InputSource::new("infinite", "deeper: !include infinite\n"))
        },
    );
    let cfg = ParserConfig::new().max_include_depth(5);
    let yaml = "root: !include start\n";
    let res = from_str_with_resolver(yaml, &cfg, &resolver);
    assert!(res.is_err(), "max-depth must abort: {res:?}");
}

#[test]
fn a_chain_of_sources_is_cut_at_the_limit() {
    // no source comes twice, so only the depth can stop this
    let resolver = IncludeResolver::new(
        |req: IncludeRequest<'_>| -> Result<InputSource, Error> {
            let name = format!("{}", req.depth);
            Ok(InputSource::new(&name, "deeper: !include next\n"))
        },
    );
    let cfg = ParserConfig::new().max_include_depth(5);
    let err = from_str_with_resolver("root: !include start\n", &cfg, &resolver).unwrap_err();
    assert_eq!(err.message(), "includes are nested too deep");
}

#[test]
fn no_resolver_set_means_no_walk() {
    let cfg = ParserConfig::new();
    let yaml = "left_alone: !include frag.yaml\n";
    let v = from_str_with_config(yaml, &cfg).unwrap();
    let left = v.get("left_alone").unwrap();
    let tag_str = left.as_tagged().map(|t| t.tag().as_str());
    assert_eq!(tag_str, Some("!include"));
}

#[test]
fn resolver_errors_propagate() {
    let resolver = IncludeResolver::new(
        |_req: IncludeRequest<'_>| -> Result<InputSource, Error> {
            Err(Error::Custom("synthetic resolver failure".into()))
        },
    );
    let cfg = ParserConfig::new();
    let yaml = "v: !include anything\n";
    let err = from_str_with_resolver(yaml, &cfg, &resolver).unwrap_err().message();
    assert!(err.contains("synthetic"), "{err}");
}

#[test]
fn non_string_spec_errors() {
    let resolver = IncludeResolver::new(
        |_req: IncludeRequest<'_>| -> Result<InputSource, Error> {
            Ok(InputSource::new("noop", "k: v\n"))
        },
    );
    let cfg = ParserConfig::new();
    let yaml = "bad: !include\n  not: a-scalar\n";
    let res = from_str_with_resolver(yaml, &cfg, &resolver);
    assert!(res.is_err());
    assert_eq!(res.unwrap_err().message(), "an include needs a string");
}

#[test]
fn resolver_observes_increasing_depth() {
    let depths: Arc<Mutex<Vec<usize>>> = Arc::new(Mutex::new(Vec::new()));
    let depths_clone = Arc::clone(&depths);
    let resolver = IncludeResolver::new(
        move |req: IncludeRequest<'_>| -> Result<InputSource, Error> {
            depths_clone.lock().unwrap().push(req.depth);
            match req.spec {
                "a.yaml" => Ok(InputSource::new("a", "next: !include b.yaml\n")),
                "b.yaml" => Ok(InputSource::new("b", "leaf: 7\n")),
                _ => unreachable!(),
            }
        },
    );
    let cfg = ParserConfig::new();
    let v = from_str_with_resolver("r: !include a.yaml\n", &cfg, &resolver).unwrap();
    let leaf = v.get("r").unwrap().get("next").unwrap().get("leaf").unwrap();
    assert_eq!(leaf.as_i64(), Some(7));
    let observed = depths.lock().unwrap().clone();
    assert_eq!(observed, vec![0, 1]);
}

#[test]
fn every_source_that_asks_has_a_number_of_its_own() {
    let asked: Arc<Mutex<Vec<(usize, String)>>> = Arc::new(Mutex::new(Vec::new()));
    let log = Arc::clone(&asked);
    let resolver = IncludeResolver::new(
        move |req: IncludeRequest<'_>| -> Result<InputSource, Error> {
            log.lock().unwrap().push((req.from_id, req.spec.to_owned()));
            match req.spec {
                "a" => Ok(InputSource::new("a", "- !include c\n")),
                "b" => Ok(InputSource::new("b", "- !include c\n")),
                _ => Ok(InputSource::new("c", "1\n")),
            }
        },
    );
    let cfg = ParserConfig::new();
    let v = from_str_with_resolver("- !include a\n- !include b\n", &cfg, &resolver).unwrap();
    let items = v.as_sequence().unwrap();
    assert_eq!(items[0].as_sequence().unwrap()[0].as_i64(), Some(1));
    assert_eq!(items[1].as_sequence().unwrap()[0].as_i64(), Some(1));
    let seen = asked.lock().unwrap().clone();
    let expected: Vec<(usize, String)> = vec![
        (0, "a".to_owned()),
        (1, "c".to_owned()),
        (0, "b".to_owned()),
        (3, "c".to_owned()),
    ];
    assert_eq!(seen, expected);
}

#[test]
fn other_tags_stay_around_what_is_put_in() {
    let mut files = HashMap::new();
    let _ = files.insert("x", "5\n");
    let cfg = ParserConfig::new();
    let v = read("k: !mine\n  - !include x\n", files, &cfg).unwrap();
    let t = v.get("k").unwrap().as_tagged().unwrap();
    assert_eq!(t.tag(), "!mine");
    assert_eq!(t.value.as_sequence().unwrap()[0].as_i64(), Some(5));
}

#[test]
fn a_text_without_requests_reads_as_ever() {
    let cfg = ParserConfig::new();
    let yaml = "a: 1\nb: [x, !mine y]\n";
    let v = read(yaml, HashMap::new(), &cfg).unwrap();
    assert_eq!(v, from_str_with_config(yaml, &cfg).unwrap());
}

#[test]
fn a_source_that_does_not_parse_is_an_error() {
    let mut files = HashMap::new();
    let _ = files.insert("x", "[1\n");
    let cfg = ParserConfig::new();
    let err = read("k: !include x\n", files, &cfg).unwrap_err();
    assert!(matches!(err, Error::Syntax(_)));
}
