use botcore::lang::{Lang, LangError};

#[test]
fn from_toml_parses_messages() {
    let lang = Lang::from_toml("greeting = \"hello\"\nfarewell = \"bye\"\n").unwrap();
    assert_eq!(lang.get("greeting"), "hello");
    assert_eq!(lang.get("farewell"), "bye");
}

#[test]
fn from_toml_rejects_bad_documents() {
    assert!(matches!(Lang::from_toml("not toml at all ="), Err(LangError::Parse(_))));
    // A table of non-string values is refused too.
    assert!(matches!(Lang::from_toml("n = 3"), Err(LangError::Parse(_))));
}

#[test]
fn missing_key_resolves_to_itself() {
    let lang = Lang::from_toml("").unwrap();
    assert_eq!(lang.get("errors.unknown"), "errors.unknown");
}

#[test]
fn fallback_answers_for_missing_keys() {
    let en = Lang::from_toml("hello = \"Hello\"\nonly_en = \"English only\"\n").unwrap();
    let de = Lang::from_toml("hello = \"Hallo\"\n").unwrap().with_fallback(en);
    // The primary table wins where it has the key.
    assert_eq!(de.get("hello"), "Hallo");
    // The fallback answers where it does not.
    assert_eq!(de.get("only_en"), "English only");
    // A key found nowhere resolves to itself.
    assert_eq!(de.get("nowhere"), "nowhere");
}

#[test]
fn get_with_params_substitutes_placeholders() {
    let lang = Lang::from_toml("welcome = \"Hi {name}, you are {rank}!\"\n").unwrap();
    let text = lang.get_with_params("welcome", &[("name", "Ada"), ("rank", "owner")]);
    assert_eq!(text, "Hi Ada, you are owner!");
}

#[test]
fn get_with_params_replaces_every_occurrence() {
    let lang = Lang::from_toml("echo = \"{w} and {w} again\"\n").unwrap();
    assert_eq!(lang.get_with_params("echo", &[("w", "so")]), "so and so again");
}

#[test]
fn get_with_params_leaves_unknown_placeholders() {
    let lang = Lang::from_toml("t = \"{a} {b}\"\n").unwrap();
    assert_eq!(lang.get_with_params("t", &[("a", "x")]), "x {b}");
}

#[test]
fn has_key_searches_the_whole_chain() {
    let en = Lang::from_toml("base = \"b\"\n").unwrap();
    let de = Lang::from_toml("own = \"o\"\n").unwrap().with_fallback(en);
    assert!(de.has_key("own"));
    assert!(de.has_key("base"));
    assert!(!de.has_key("neither"));
}

#[test]
fn list_keys_holds_each_key_once() {
    let en = Lang::from_toml("shared = \"s\"\nen_only = \"e\"\n").unwrap();
    let de = Lang::from_toml("shared = \"x\"\nde_only = \"d\"\n").unwrap().with_fallback(en);
    let mut keys = de.list_keys();
    keys.sort();
    assert_eq!(
        keys,
        vec!["de_only".to_string(), "en_only".to_string(), "shared".to_string()]
    );
}
