use verune::conf::{collect, parse, unsafe_collect};
use verune::launch::{exec, next_scope, search_path_value};
use verune::runtime::{Runtime, RuntimeError, RuntimeMetadata};

fn entries() -> Vec<(String, String)> {
    vec![("node".to_string(), "20".to_string()), ("rust".to_string(), "1.80".to_string())]
}

#[test]
fn paths_under_home() {
    assert_eq!(Runtime::get_root(Some("/home/u")), Ok("/home/u/.ver".to_string()));
    assert_eq!(Runtime::get_root(None), Err(RuntimeError::NoHome));
    assert_eq!(Runtime::get_runtime(Some("/h"), "node"), Ok("/h/.ver/node".to_string()));
    let rt = Runtime::unsafe_new("node");
    assert_eq!(rt.get_version(Some("/h"), "20"), Ok("/h/.ver/node/20".to_string()));
    assert_eq!(rt.get_safe_version(Some("/h"), "20", true), Ok("/h/.ver/node/20".to_string()));
    let err = rt.get_safe_version(Some("/h"), "21", false).unwrap_err();
    assert_eq!(err, RuntimeError::VersionNotFound("21".to_string(), "node".to_string()));
    assert_eq!(err.describe(), "Version 21 for runtime \"node\" was not found");
    assert_eq!(rt.get_safe_version(None, "21", true), Err(RuntimeError::NoHome));
}

#[test]
fn search_paths() {
    let rt = Runtime {
        name: "node".to_string(),
        metadata: RuntimeMetadata {
            display_name: "Node".to_string(),
            search_paths: vec!["bin".to_string(), "lib/bin".to_string()],
        },
    };
    let ok = rt.get_version_search_paths(Some("/h"), "20", true, &vec![true, true]);
    assert_eq!(ok, Ok(vec!["/h/.ver/node/20/bin".to_string(), "/h/.ver/node/20/lib/bin".to_string()]));
    let missing = rt.get_version_search_paths(Some("/h"), "20", true, &vec![true, false]).unwrap_err();
    assert_eq!(missing, RuntimeError::SearchPathMissing("/h/.ver/node/20/lib/bin".to_string()));
    assert_eq!(missing.describe(), "Search path \"/h/.ver/node/20/lib/bin\" does not exist");
    let first = rt.get_version_search_paths(Some("/h"), "20", true, &vec![false, false]).unwrap_err();
    assert_eq!(first, RuntimeError::SearchPathMissing("/h/.ver/node/20/bin".to_string()));
    assert!(matches!(
        rt.get_version_search_paths(Some("/h"), "20", false, &vec![true, true]),
        Err(RuntimeError::VersionNotFound(_, _))
    ));
    assert_eq!(rt.search_path_candidates("/v"), vec!["/v/bin".to_string(), "/v/lib/bin".to_string()]);
}

#[test]
fn collecting_runtimes() {
    let plain = unsafe_collect(&entries());
    assert_eq!(plain.len(), 2);
    assert_eq!(plain[0].0.name, "node");
    assert_eq!(plain[0].0.metadata, RuntimeMetadata::default());
    assert_eq!(plain[1].1, "1.80");

    let meta = RuntimeMetadata { display_name: "Rust".to_string(), search_paths: vec![] };
    let full = collect(&entries(), vec![Some(RuntimeMetadata::default()), Some(meta)]).unwrap();
    assert_eq!(full[1].0.metadata.display_name, "Rust");
    let err = collect(&entries(), vec![Some(RuntimeMetadata::default()), None]).unwrap_err();
    assert_eq!(err, RuntimeError::InvalidMetadata("rust".to_string()));
    assert_eq!(err.describe(), "Metadata file for runtime \"rust\" is not valid runtime metadata");
}

#[test]
fn parsing_configuration() {
    let parsed = parse("{\"rust\": \"1.80\", \"node\": \"20\"}").unwrap();
    assert_eq!(parsed, entries());
    assert_eq!(parse("{}").unwrap(), vec![]);
    assert_eq!(parse("not a map"), Err(RuntimeError::InvalidConfig));
    assert_eq!(RuntimeError::InvalidConfig.describe(), "Configuration file is invalid");
}

#[test]
fn launching() {
    let dirs = vec!["/a".to_string(), "/b".to_string()];
    assert_eq!(search_path_value(&dirs, Some("/usr/bin"), ':'), "/a:/b:/usr/bin");
    assert_eq!(search_path_value(&dirs, None, ';'), "/a;/b");
    assert_eq!(search_path_value(&vec![], Some("/usr/bin"), ':'), ":/usr/bin");
    assert_eq!(next_scope(None), 1);
    assert_eq!(next_scope(Some(4)), 5);

    let plan = exec(vec!["cargo".to_string(), "build".to_string()], None, "sh", &dirs, None, ':', Some(1));
    assert_eq!(plan.program, "cargo");
    assert_eq!(plan.args, vec!["build".to_string()]);
    assert_eq!(plan.path, "/a:/b");
    assert_eq!(plan.scope, 2);
    let shell = exec(vec![], Some("/bin/zsh".to_string()), "sh", &dirs, None, ':', None);
    assert_eq!(shell.program, "/bin/zsh");
    assert!(shell.args.is_empty());
    let fallback = exec(vec![], None, "sh", &dirs, None, ':', None);
    assert_eq!(fallback.program, "sh");
    assert_eq!(fallback.scope, 1);
}
