use dotenv::{resolve_environment, Dotenv, EnvMap};

#[test]
fn load_keeps_existing_bindings() {
    let mut dotenv = Dotenv::new();
    let mut store = EnvMap::new();
    dotenv.load("FOO=old\nKEEP=yes", ".env", &mut store).unwrap();
    dotenv.load("FOO=new\nBAR=fresh", ".env", &mut store).unwrap();
    assert_eq!(store.get("FOO").unwrap(), "old");
    assert_eq!(store.get("KEEP").unwrap(), "yes");
    assert_eq!(store.get("BAR").unwrap(), "fresh");
}

#[test]
fn overload_overwrites_existing_bindings() {
    let mut dotenv = Dotenv::new();
    let mut store = EnvMap::new();
    dotenv.load("FOO=old\nKEEP=yes", ".env", &mut store).unwrap();
    dotenv.overload("FOO=new", ".env", &mut store).unwrap();
    assert_eq!(store.get("FOO").unwrap(), "new");
    assert_eq!(store.get("KEEP").unwrap(), "yes");
}

#[test]
fn load_writes_nothing_on_malformed_file() {
    let mut dotenv = Dotenv::new();
    let mut store = EnvMap::new();
    dotenv.load("FOO=old", ".env", &mut store).unwrap();
    let result = dotenv.load("FOO=new\nBROKEN", ".env", &mut store);
    assert!(result.is_err());
    assert_eq!(store.get("FOO").unwrap(), "old");
}

#[test]
fn hierarchy_selector_specific_wins() {
    let mut dotenv = Dotenv::new();
    let mut store = EnvMap::new();
    dotenv
        .load_env_defaults(Some("X=1"), ".env", Some("X=2"), ".env.local", &mut store)
        .unwrap();
    assert_eq!(store.get("X").unwrap(), "2");
    let environment = resolve_environment(&store, "APP_ENV", "dev");
    assert_eq!(environment, "dev");
    dotenv
        .load_env_specific(&environment, Some("X=3"), ".env.dev", None, ".env.dev.local", &mut store)
        .unwrap();
    assert_eq!(store.get("X").unwrap(), "3");
}

#[test]
fn hierarchy_selector_local_skips_specific_files() {
    let mut dotenv = Dotenv::new();
    let mut store = EnvMap::new();
    dotenv
        .load_env_defaults(Some("X=1"), ".env", Some("X=2"), ".env.local", &mut store)
        .unwrap();
    let environment = resolve_environment(&store, "APP_ENV", "local");
    assert_eq!(environment, "local");
    dotenv
        .load_env_specific(
            &environment,
            Some("X=3"),
            ".env.local.file",
            None,
            ".env.local.file.local",
            &mut store,
        )
        .unwrap();
    assert_eq!(store.get("X").unwrap(), "2");
}

#[test]
fn hierarchy_selector_read_from_loaded_files() {
    let mut dotenv = Dotenv::new();
    let mut store = EnvMap::new();
    dotenv
        .load_env_defaults(Some("X=1\nAPP_ENV=prod"), ".env", None, ".env.local", &mut store)
        .unwrap();
    let environment = resolve_environment(&store, "APP_ENV", "dev");
    assert_eq!(environment, "prod");
}

#[test]
fn hierarchy_missing_files_are_skipped() {
    let mut dotenv = Dotenv::new();
    let mut store = EnvMap::new();
    dotenv.load_env_defaults(None, ".env", None, ".env.local", &mut store).unwrap();
    assert!(store.get("X").is_none());
}

#[test]
fn entry_iteration_covers_all_bindings() {
    let mut dotenv = Dotenv::new();
    let mut store = EnvMap::new();
    dotenv.load("A=1\nB=2", ".env", &mut store).unwrap();
    let mut seen_a = false;
    let mut seen_b = false;
    let mut i = 0;
    while i < store.len() {
        let (name, value) = store.entry_at(i);
        if name == "A" {
            assert_eq!(value, "1");
            seen_a = true;
        }
        if name == "B" {
            assert_eq!(value, "2");
            seen_b = true;
        }
        i += 1;
    }
    assert!(seen_a && seen_b);
}
