use track::error::TrackError;
use track::exporter::{
    clean_targets, plan_dir_export, plan_export, plan_tar_export, ArchiveEntry, CopyStep,
    DirChild, ExportKind, ExportPlan, ExportTarget,
};

fn b(s: &str) -> Vec<u8> {
    s.as_bytes().to_vec()
}

fn child(name: &str, is_directory: bool) -> DirChild {
    DirChild { name: b(name), is_directory }
}

fn refusal(path: &str) -> TrackError {
    TrackError::Export { path: b(path), reason: String::from("not an absolute path to a file") }
}

#[test]
fn export_kinds_have_three_names() {
    assert_eq!(ExportKind::from_str("dir"), Ok(ExportKind::Dir));
    assert_eq!(ExportKind::from_str("tar"), Ok(ExportKind::Tar));
    assert_eq!(ExportKind::from_str("zip"), Ok(ExportKind::Zip));
}

#[test]
fn other_names_are_no_export_kind() {
    for word in ["", "Dir", "dirs", "di", "tar.gz", " zip", "d\u{ef}r", "\u{1f4c1}"] {
        assert_eq!(
            ExportKind::from_str(word),
            Err(TrackError::UnknownExportKind { given: String::from(word) })
        );
    }
}

#[test]
fn cleaning_spares_only_the_git_directory() {
    let children =
        vec![child("old.txt", false), child(".git", true), child("tmp", true), child("x", false)];
    assert_eq!(clean_targets(&children), vec![b("old.txt"), b("tmp"), b("x")]);
}

#[test]
fn cleaning_deletes_a_file_named_git() {
    assert_eq!(clean_targets(&vec![child(".git", false)]), vec![b(".git")]);
    assert_eq!(clean_targets(&vec![child(".git", true)]), Vec::<Vec<u8>>::new());
    assert_eq!(clean_targets(&Vec::new()), Vec::<Vec<u8>>::new());
}

#[test]
fn directory_export_mirrors_the_path_from_the_root() {
    let plan = plan_dir_export(&b("/tmp/out"), &vec![b("/tmp/proj/x.txt")]);
    assert_eq!(
        plan,
        Ok(vec![CopyStep {
            source: b("/tmp/proj/x.txt"),
            directory: b("/tmp/out/tmp/proj"),
            destination: b("/tmp/out/tmp/proj/x.txt"),
        }])
    );
}

#[test]
fn directory_export_keeps_the_order_of_the_matches() {
    let matches = vec![b("/y/b.txt"), b("/x/a.txt"), b("/y/b.txt")];
    let steps = plan_dir_export(&b("out/"), &matches).unwrap();
    let destinations: Vec<Vec<u8>> = steps.into_iter().map(|s| s.destination).collect();
    assert_eq!(destinations, vec![b("out/y/b.txt"), b("out/x/a.txt"), b("out/y/b.txt")]);
}

#[test]
fn directory_export_of_a_file_at_the_root() {
    let steps = plan_dir_export(&b("/out"), &vec![b("/a.txt")]).unwrap();
    assert_eq!(steps[0].directory, b("/out"));
    assert_eq!(steps[0].destination, b("/out/a.txt"));
}

#[test]
fn directory_export_twice_plans_the_same() {
    let matches = vec![b("/x/a.txt"), b("/y/b.txt")];
    assert_eq!(plan_dir_export(&b("/out"), &matches), plan_dir_export(&b("/out"), &matches));
    assert_eq!(plan_dir_export(&b("/out"), &Vec::new()), Ok(Vec::new()));
}

#[test]
fn directory_export_refuses_what_is_no_absolute_file() {
    let matches = vec![b("/x/a.txt"), b("rel/b.txt"), b("/")];
    assert_eq!(plan_dir_export(&b("/out"), &matches), Err(refusal("rel/b.txt")));
    assert_eq!(plan_dir_export(&b("/out"), &vec![b("/")]), Err(refusal("/")));
    assert_eq!(plan_dir_export(&b("/out"), &vec![b("/x/")]), Err(refusal("/x/")));
    assert_eq!(plan_dir_export(&b("/out"), &vec![b("")]), Err(refusal("")));
}

#[test]
fn archive_entries_are_named_from_the_root() {
    let plan = plan_tar_export(&vec![b("/x/a.txt"), b("/y/b.txt")]);
    assert_eq!(
        plan,
        Ok(vec![
            ArchiveEntry { source: b("/x/a.txt"), name: b("x/a.txt") },
            ArchiveEntry { source: b("/y/b.txt"), name: b("y/b.txt") },
        ])
    );
}

#[test]
fn archive_export_refuses_what_is_no_absolute_file() {
    assert_eq!(plan_tar_export(&vec![b("/x/a"), b("y/b")]), Err(refusal("y/b")));
    assert_eq!(plan_tar_export(&Vec::new()), Ok(Vec::new()));
}

#[test]
fn zip_export_is_not_provided() {
    let target = ExportTarget { kind: ExportKind::Zip, destination: b("/tmp/out.zip") };
    assert_eq!(plan_export(&target, &vec![b("/x/a.txt")]), Err(TrackError::Unimplemented));
    assert_eq!(plan_export(&target, &vec![b("not/absolute")]), Err(TrackError::Unimplemented));
    assert_eq!(plan_export(&target, &Vec::new()), Err(TrackError::Unimplemented));
}

#[test]
fn only_zip_is_not_provided() {
    assert_eq!(ExportKind::Zip.provided(), Err(TrackError::Unimplemented));
    assert_eq!(ExportKind::Dir.provided(), Ok(()));
    assert_eq!(ExportKind::Tar.provided(), Ok(()));
}

#[test]
fn export_plans_follow_the_kind() {
    let matches = vec![b("/x/a.txt")];
    let to_dir = ExportTarget { kind: ExportKind::Dir, destination: b("/out") };
    assert_eq!(
        plan_export(&to_dir, &matches),
        Ok(ExportPlan::Directory {
            steps: vec![CopyStep {
                source: b("/x/a.txt"),
                directory: b("/out/x"),
                destination: b("/out/x/a.txt"),
            }]
        })
    );
    let to_tar = ExportTarget { kind: ExportKind::Tar, destination: b("/out.tar.gz") };
    assert_eq!(
        plan_export(&to_tar, &matches),
        Ok(ExportPlan::Archive {
            entries: vec![ArchiveEntry { source: b("/x/a.txt"), name: b("x/a.txt") }]
        })
    );
    assert_eq!(plan_export(&to_dir, &vec![b("x")]), Err(refusal("x")));
}
