use autosub::commands::{job_dir_in, job_id, job_id_of, new_job_dir};

#[test]
fn job_names_are_hex_times() {
    assert_eq!(job_id_of(0), "0");
    assert_eq!(job_id_of(255), "ff");
    assert_eq!(job_id_of(0x1234_abcd), "1234abcd");
    assert!(job_id().chars().all(|c| c.is_ascii_hexdigit()));
}

#[test]
fn job_directories() {
    assert_eq!(job_dir_in("/data/AutoSub", "ab"), "/data/AutoSub/jobs/ab");
    assert!(new_job_dir().contains("AutoSub/jobs/"));
}
