use aionui_wsl::wsl_path::{map_workspace_path_for_wsl, WslPathMappingError};

#[test]
fn maps_windows_drive_path_to_wsl_mount() {
    assert_eq!(
        map_workspace_path_for_wsl(r"C:\Users\cheng\project", "Ubuntu").unwrap(),
        "/mnt/c/Users/cheng/project"
    );
    assert_eq!(
        map_workspace_path_for_wsl("D:/work/my project", "Ubuntu").unwrap(),
        "/mnt/d/work/my project"
    );
}

#[test]
fn preserves_posix_absolute_path() {
    assert_eq!(
        map_workspace_path_for_wsl("/home/cheng/project", "Ubuntu").unwrap(),
        "/home/cheng/project"
    );
    assert_eq!(
        map_workspace_path_for_wsl("/mnt/c//Users/cheng/project", "Ubuntu").unwrap(),
        "/mnt/c/Users/cheng/project"
    );
}

#[test]
fn maps_wsl_unc_path_for_matching_distro() {
    assert_eq!(
        map_workspace_path_for_wsl(r"\\wsl$\Ubuntu\home\cheng\project", "Ubuntu").unwrap(),
        "/home/cheng/project"
    );
    assert_eq!(
        map_workspace_path_for_wsl(r"\\wsl.localhost\Ubuntu\home\cheng\project", "ubuntu").unwrap(),
        "/home/cheng/project"
    );
}

#[test]
fn rejects_wsl_unc_path_for_different_distro() {
    assert_eq!(
        map_workspace_path_for_wsl(r"\\wsl$\Debian\home\cheng\project", "Ubuntu").unwrap_err(),
        WslPathMappingError::DistroMismatch {
            expected: "Ubuntu".into(),
            actual: "Debian".into(),
        }
    );
}

#[test]
fn rejects_unsupported_or_relative_paths_without_fallback() {
    assert_eq!(
        map_workspace_path_for_wsl("project", "Ubuntu").unwrap_err(),
        WslPathMappingError::RelativePath("project".into())
    );
    assert_eq!(
        map_workspace_path_for_wsl("C:project", "Ubuntu").unwrap_err(),
        WslPathMappingError::DriveRelativePath("C:project".into())
    );
    assert_eq!(
        map_workspace_path_for_wsl(r"\\server\share\project", "Ubuntu").unwrap_err(),
        WslPathMappingError::UnsupportedUncPath(r"\\server\share\project".into())
    );
}

#[test]
fn rejects_empty_path() {
    assert_eq!(
        map_workspace_path_for_wsl("  ", "Ubuntu").unwrap_err(),
        WslPathMappingError::EmptyPath
    );
}

#[test]
fn error_messages_name_the_offending_path() {
    assert_eq!(WslPathMappingError::EmptyPath.to_string(), "workspace path is empty");
    assert_eq!(
        WslPathMappingError::RelativePath("project".into()).to_string(),
        "workspace path must be absolute: project"
    );
    assert_eq!(
        WslPathMappingError::DriveRelativePath("C:project".into()).to_string(),
        "Windows drive-relative paths are not supported: C:project"
    );
    assert_eq!(
        WslPathMappingError::UnsupportedUncPath(r"\\server\share".into()).to_string(),
        r"UNC workspace path is not a WSL path: \\server\share"
    );
    assert_eq!(
        WslPathMappingError::DistroMismatch {
            expected: "Ubuntu".into(),
            actual: "Debian".into()
        }
        .to_string(),
        "WSL path targets distro 'Debian', expected 'Ubuntu'"
    );
}

#[test]
fn mapped_paths_map_to_themselves_again() {
    for input in [
        r"C:\Users\cheng\project",
        "/mnt/c//Users//x",
        r"\\wsl$\Ubuntu\home\cheng",
        "/",
    ] {
        let once = map_workspace_path_for_wsl(input, "Ubuntu").unwrap();
        assert!(once.starts_with('/'), "{once}");
        let twice = map_workspace_path_for_wsl(&once, "Ubuntu").unwrap();
        assert_eq!(once, twice);
    }
}

#[test]
fn distro_match_ignores_case_and_posix_paths_ignore_distro() {
    assert_eq!(
        map_workspace_path_for_wsl(r"\\wsl$\UBUNTU\srv", "ubuntu").unwrap(),
        "/srv"
    );
    assert_eq!(
        map_workspace_path_for_wsl("/srv/app", "Debian").unwrap(),
        map_workspace_path_for_wsl("/srv/app", "Ubuntu").unwrap()
    );
}

#[test]
fn trims_surrounding_whitespace_and_backslashes_of_unc_rest() {
    assert_eq!(
        map_workspace_path_for_wsl("  E:\\data\\  ", "Ubuntu").unwrap(),
        "/mnt/e/data/"
    );
    assert_eq!(
        map_workspace_path_for_wsl(r"\\wsl$\Ubuntu", "Ubuntu").unwrap(),
        "/"
    );
}

#[test]
fn remapping_trims_trailing_white_space_of_a_unc_mapping() {
    let once = map_workspace_path_for_wsl("\\\\wsl$\\Ubuntu\\a \\", "Ubuntu").unwrap();
    assert_eq!(once, "/a ");
    assert_eq!(map_workspace_path_for_wsl(&once, "Debian").unwrap(), "/a");
}

#[test]
fn a_path_maps_like_its_trimmed_form() {
    for input in ["  C:\\x  ", "\t/srv//a\n", "  rel ", "   ", " \\\\wsl$\\Ubuntu\\h "] {
        assert_eq!(
            map_workspace_path_for_wsl(input, "Ubuntu"),
            map_workspace_path_for_wsl(input.trim(), "Ubuntu")
        );
    }
}
