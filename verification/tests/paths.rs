use snout::paths::{choose_data_dir, data_dir, embeddings_path, index_dir, path_join};

#[test]
fn fallback_data_dir() {
    assert_eq!(choose_data_dir(None), ".snout_data");
    assert_eq!(choose_data_dir(Some("/home/u/.local/share/snout".to_string())), "/home/u/.local/share/snout");
}

#[test]
fn joining_paths() {
    assert_eq!(path_join("", "index"), "index");
    assert_eq!(path_join("/a/", "b"), "/a/b");
    assert_eq!(path_join("/a", "b"), "/a/b");
    assert_eq!(path_join(".snout_data", "embeddings.jsonl"), ".snout_data/embeddings.jsonl");
}

#[test]
fn index_and_embeddings_live_in_the_data_dir() {
    assert!(index_dir().ends_with("/index"));
    assert!(embeddings_path().ends_with("/embeddings.jsonl"));
}

#[test]
fn data_dir_is_not_empty() {
    assert!(!data_dir().is_empty());
}

#[test]
fn index_and_embeddings_live_in_the_data_directory() {
    let d = snout::paths::data_dir();
    let sep = if d.ends_with('/') { "" } else { "/" };
    assert_eq!(snout::paths::index_dir(), format!("{}{}index", d, sep));
    assert_eq!(snout::paths::embeddings_path(), format!("{}{}embeddings.jsonl", d, sep));
}
