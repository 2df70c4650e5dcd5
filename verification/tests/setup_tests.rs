use autosub::setup::{find_present, home_model_path_in, join_path, model_candidates_in, model_exists, model_path_in, resolve_model_path, model_filename, model_path, model_url, models_dir, data_dir, MODEL};

#[test]
fn model_filename_is_large_v3() {
    assert_eq!(model_filename(), "ggml-large-v3.bin");
}

#[test]
fn model_url_points_to_huggingface_large_v3() {
    assert_eq!(
        model_url(),
        "https://huggingface.co/ggerganov/whisper.cpp/resolve/main/ggml-large-v3.bin"
    );
}

#[test]
fn model_path_is_under_models_subdir() {
    let p = model_path();
    assert!(p.ends_with("AutoSub/models/ggml-large-v3.bin"));
}

#[test]
fn model_name_is_large_v3() {
    assert_eq!(MODEL, "large-v3");
}

#[test]
fn data_dir_ends_with_app_name() {
    assert!(data_dir().ends_with("/AutoSub") || data_dir() == "./AutoSub");
    assert!(models_dir().ends_with("AutoSub/models"));
}

#[test]
fn join_path_follows_pathbuf_join() {
    assert_eq!(join_path("/a/b", "c"), "/a/b/c");
    assert_eq!(join_path("/a/b/", "c"), "/a/b/c");
    assert_eq!(join_path("", "c"), "c");
    assert_eq!(join_path("/a", "/etc/x"), "/etc/x");
    assert_eq!(join_path(".", "AutoSub"), "./AutoSub");
    let p = std::path::PathBuf::from("/x/y").join("z/w");
    assert_eq!(join_path("/x/y", "z/w"), p.to_string_lossy());
}

#[test]
fn model_exists_matches_disk() {
    let in_data = std::path::Path::new(&model_path()).exists();
    let in_home = dirs::home_dir()
        .map(|h| h.join("whisper-models").join("ggml-large-v3.bin").exists())
        .unwrap_or(false);
    assert_eq!(model_exists(), in_data || in_home);
    assert_eq!(resolve_model_path().is_some(), in_data || in_home);
}

#[test]
fn model_path_in_is_exact() {
    assert_eq!(model_path_in(Some("/d")), "/d/AutoSub/models/ggml-large-v3.bin");
    assert_eq!(model_path_in(None), "./AutoSub/models/ggml-large-v3.bin");
    assert_eq!(home_model_path_in("/home/u"), "/home/u/whisper-models/ggml-large-v3.bin");
    assert_eq!(
        model_candidates_in(Some("/d"), Some("/h")),
        vec![
            "/d/AutoSub/models/ggml-large-v3.bin".to_string(),
            "/h/whisper-models/ggml-large-v3.bin".to_string()
        ]
    );
    assert_eq!(model_candidates_in(Some("/d"), None).len(), 1);
}

#[test]
fn find_present_takes_the_first_that_exists() {
    let c = vec!["a".to_string(), "b".to_string()];
    assert_eq!(find_present(&c, &[false, true]), Some("b".to_string()));
    assert_eq!(find_present(&c, &[true, true]), Some("a".to_string()));
    assert_eq!(find_present(&c, &[false, false]), None);
}
