//! How an editor gets hold of the server and starts it.
use composer_language_server::extension::{
    add_cache_directory, custom_command, installed_command, is_own_language_server, next, Notice,
    Server, Stage,
};
use composer_language_server::fallback::{
    candidate, in_order, next_trial, usable_in_order, Candidate, Trial,
};
use composer_language_server::platform::{
    is_valid_server, platform, Architecture, ExecutableFormat, FileProbe, Os, ServerPlatform,
    MIN_SERVER_BYTES,
};

fn linux() -> ServerPlatform {
    platform(Os::Linux, Architecture::X8664).expect("a platform")
}

fn run(outcomes: &[(bool, &str)]) -> Stage {
    let mut stage = Stage::ValidateCached;
    for (success, error) in outcomes {
        stage = next(stage, *success, error.to_string(), "t", "/p");
    }
    stage
}

fn ended(outcomes: &[(bool, &str)]) -> (Result<Server, String>, Notice) {
    match run(outcomes) {
        Stage::Finished { server, notice } => (server, notice),
        stage => panic!("not finished: {stage:?}"),
    }
}

#[test]
fn every_64_bit_platform_has_a_server() {
    let expected = [
        (Os::Mac, Architecture::Aarch64, "aarch64-apple-darwin", "", ExecutableFormat::MachO),
        (Os::Mac, Architecture::X8664, "x86_64-apple-darwin", "", ExecutableFormat::MachO),
        (Os::Linux, Architecture::Aarch64, "aarch64-unknown-linux-musl", "", ExecutableFormat::Elf),
        (Os::Linux, Architecture::X8664, "x86_64-unknown-linux-musl", "", ExecutableFormat::Elf),
        (
            Os::Windows,
            Architecture::Aarch64,
            "aarch64-pc-windows-msvc",
            ".exe",
            ExecutableFormat::Windows,
        ),
        (
            Os::Windows,
            Architecture::X8664,
            "x86_64-pc-windows-msvc",
            ".exe",
            ExecutableFormat::Windows,
        ),
    ];
    for (os, architecture, target, suffix, format) in expected {
        let platform = platform(os, architecture).expect("a platform");
        assert_eq!(platform.target, target);
        assert_eq!(platform.executable_suffix, suffix);
        assert_eq!(platform.format, format);
        assert_eq!(platform.fallback_targets[0], target);
        assert_eq!(platform.fallback_targets.len(), if os == Os::Linux { 2 } else { 1 });
    }
    assert_eq!(
        linux().fallback_targets,
        ["x86_64-unknown-linux-musl", "x86_64-unknown-linux-gnu"]
    );
}

#[test]
fn thirty_two_bit_platforms_have_none() {
    for os in [Os::Mac, Os::Linux, Os::Windows] {
        assert_eq!(
            platform(os, Architecture::X86).err().as_deref(),
            Some("Composer LSP does not provide a language server for 32-bit systems")
        );
    }
}

#[test]
fn servers_have_names_and_addresses() {
    let windows = platform(Os::Windows, Architecture::X8664).expect("a platform");
    assert_eq!(
        windows.asset_name(),
        "composer-language-server-x86_64-pc-windows-msvc.exe"
    );
    assert_eq!(
        windows.file_name(),
        "composer-language-server-0.2.5-x86_64-pc-windows-msvc.exe"
    );
    assert_eq!(
        windows.download_url(),
        "https://github.com/BastenIT/zed-composer-support/releases/download/v0.2.5/composer-language-server-x86_64-pc-windows-msvc.exe"
    );
}

#[test]
fn servers_are_recognised_by_their_beginning() {
    let probe = |signature: [u8; 4], read| FileProbe {
        is_file: true,
        bytes: MIN_SERVER_BYTES,
        signature,
        read,
    };
    let elf = *b"\x7fELF";
    assert!(is_valid_server(&probe(elf, 4), ExecutableFormat::Elf));
    assert!(!is_valid_server(&probe(elf, 3), ExecutableFormat::Elf));
    assert!(!is_valid_server(&probe(elf, 4), ExecutableFormat::MachO));
    assert!(!is_valid_server(&probe(elf, 4), ExecutableFormat::Windows));
    assert!(is_valid_server(&probe(*b"MZ\x00\x01", 4), ExecutableFormat::Windows));
    assert!(is_valid_server(&probe(*b"MZ\x00\x00", 2), ExecutableFormat::Windows));
    assert!(!is_valid_server(&probe(*b"MZ\x00\x00", 1), ExecutableFormat::Windows));
    assert!(!is_valid_server(&probe(*b"MA\x00\x00", 4), ExecutableFormat::Windows));
    for signature in [
        [0xfe, 0xed, 0xfa, 0xce],
        [0xce, 0xfa, 0xed, 0xfe],
        [0xfe, 0xed, 0xfa, 0xcf],
        [0xcf, 0xfa, 0xed, 0xfe],
        [0xca, 0xfe, 0xba, 0xbe],
    ] {
        assert!(is_valid_server(&probe(signature, 4), ExecutableFormat::MachO));
        assert!(!is_valid_server(&probe(signature, 2), ExecutableFormat::MachO));
        assert!(!is_valid_server(&probe(signature, 4), ExecutableFormat::Elf));
    }
    let good = probe(elf, 4);
    let short = FileProbe { bytes: MIN_SERVER_BYTES - 1, ..good };
    let directory = FileProbe { is_file: false, ..good };
    assert!(!is_valid_server(&short, ExecutableFormat::Elf));
    assert!(!is_valid_server(&directory, ExecutableFormat::Elf));
}

#[test]
fn candidates_are_named_as_servers_are() {
    let found = |name: &str| {
        candidate(&linux(), name).map(|candidate| (candidate.version, candidate.priority))
    };
    assert_eq!(
        found("composer-language-server-0.2.4-x86_64-unknown-linux-musl"),
        Some((vec![0, 2, 4], 0))
    );
    assert_eq!(
        found("composer-language-server-0.2.0-x86_64-unknown-linux-gnu"),
        Some((vec![0, 2, 0], 1))
    );
    assert_eq!(
        found("composer-language-server-10-x86_64-unknown-linux-gnu"),
        Some((vec![10], 1))
    );
    for name in [
        "",
        "composer-language-server",
        "composer-language-server-x86_64-unknown-linux-musl",
        "composer-language-server--x86_64-unknown-linux-musl",
        "composer-language-server-0.2.x-x86_64-unknown-linux-musl",
        "composer-language-server-0..2-x86_64-unknown-linux-musl",
        "composer-language-server-0.2-aarch64-unknown-linux-musl",
        "composer-language-server-0.2-x86_64-unknown-linux-musl.exe",
        "other-0.2-x86_64-unknown-linux-musl",
        "composer-language-server-0.2.5-x86_64-unknown-linux-musl",
        "-x86_64-unknown-linux-musl",
        "composer-language-server-18446744073709551616-x86_64-unknown-linux-musl",
    ] {
        assert_eq!(found(name), None, "{name}");
    }
    let windows = platform(Os::Windows, Architecture::X8664).expect("a platform");
    let name = "composer-language-server-1.2-x86_64-pc-windows-msvc.exe";
    let found = candidate(&windows, name).expect("a candidate");
    assert_eq!((found.name.as_str(), found.version), (name, vec![1, 2]));
}

#[test]
fn higher_versions_are_tried_first() {
    let make = |version: &[u64], priority| Candidate {
        name: format!("{version:?}{priority}"),
        version: version.to_vec(),
        priority,
    };
    let ordered = in_order(vec![
        make(&[0, 2], 0),
        make(&[0, 2, 0], 1),
        make(&[0, 10], 1),
        make(&[0, 2, 0], 0),
        make(&[], 0),
        make(&[1], 1),
    ]);
    let seen: Vec<_> = ordered
        .iter()
        .map(|candidate| (candidate.version.clone(), candidate.priority))
        .collect();
    assert_eq!(
        seen,
        [
            (vec![1], 1),
            (vec![0, 10], 1),
            (vec![0, 2, 0], 0),
            (vec![0, 2, 0], 1),
            (vec![0, 2], 0),
            (vec![], 0),
        ]
    );
    assert!(in_order(Vec::new()).is_empty());
}

#[test]
fn older_servers_are_checked_before_they_are_tried() {
    let make = |version: &[u64]| Candidate {
        name: format!("{version:?}"),
        version: version.to_vec(),
        priority: 0,
    };
    let good = FileProbe {
        is_file: true,
        bytes: MIN_SERVER_BYTES,
        signature: *b"\x7fELF",
        read: 4,
    };
    let short = FileProbe { bytes: 1, ..good };
    let ordered = usable_in_order(
        vec![
            (make(&[1]), good),
            (make(&[9]), short),
            (make(&[2]), good),
            (make(&[2]), good),
        ],
        ExecutableFormat::Elf,
    );
    let versions: Vec<_> = ordered.iter().map(|candidate| candidate.version[0]).collect();
    assert_eq!(versions, [2, 2, 1]);
    assert!(usable_in_order(vec![(make(&[1]), good)], ExecutableFormat::MachO).is_empty());

    let trial = |outcomes: &[bool]| next_trial(&ordered, &outcomes.to_vec());
    assert_eq!(trial(&[]), Trial::Try(0));
    assert_eq!(trial(&[false]), Trial::Try(1));
    assert_eq!(trial(&[false, true]), Trial::Take(1));
    assert_eq!(trial(&[true, true]), Trial::Take(0));
    assert_eq!(trial(&[false, false, true]), Trial::Take(2));
    assert_eq!(trial(&[false, false, false]), Trial::GiveUp);
    assert_eq!(next_trial(&Vec::new(), &Vec::new()), Trial::GiveUp);
}

#[test]
fn a_cached_server_is_used() {
    assert_eq!(
        ended(&[(true, ""), (true, "")]),
        (Ok(Server::Own), Notice::Unchanged)
    );
}

#[test]
fn a_missing_server_is_downloaded() {
    assert!(matches!(run(&[(false, ""), (false, "")]), Stage::Download));
    assert_eq!(
        ended(&[(false, ""), (false, ""), (true, ""), (true, ""), (true, "")]),
        (Ok(Server::Own), Notice::Cleared)
    );
    assert_eq!(
        ended(&[(false, ""), (true, ""), (true, ""), (true, ""), (true, ""), (true, "")]),
        (Ok(Server::Own), Notice::Cleared)
    );
}

#[test]
fn an_unusable_server_is_replaced() {
    assert!(matches!(
        run(&[(true, ""), (false, ""), (true, "")]),
        Stage::LookForLeftover
    ));
    assert_eq!(
        ended(&[(true, ""), (false, ""), (false, "busy"), (true, "")]),
        (Ok(Server::Fallback), Notice::Unchanged)
    );
    assert_eq!(
        ended(&[(true, ""), (false, ""), (false, "busy"), (false, "")]),
        (
            Err(
                "failed to repair or replace the cached Composer language server at /p: busy"
                    .to_owned()
            ),
            Notice::Unchanged
        )
    );
}

#[test]
fn a_leftover_that_cannot_be_removed_is_reported() {
    assert_eq!(
        ended(&[(false, ""), (true, ""), (false, "busy")]),
        (
            Err(
                "failed to replace an incomplete language-server download at /p: busy".to_owned()
            ),
            Notice::Unchanged
        )
    );
}

#[test]
fn a_failed_download_falls_back() {
    let offline = [(false, ""), (false, ""), (false, "offline"), (false, "ignored")];
    assert!(matches!(
        run(&offline),
        Stage::ReplaceFailed { error } if error == "offline"
    ));
    let mut outcomes = offline.to_vec();
    outcomes.push((true, ""));
    assert_eq!(ended(&outcomes), (Ok(Server::Fallback), Notice::Cleared));
    let mut outcomes = offline.to_vec();
    outcomes.push((false, ""));
    assert_eq!(
        ended(&outcomes),
        (
            Err(
                "failed to install Composer language server 0.2.5 for t: offline. No previously \
                 installed native server is available; check the v0.2.5 GitHub release and Zed's \
                 download permissions"
                    .to_owned()
            ),
            Notice::Failed
        )
    );
    assert!(matches!(
        run(&[(false, ""), (false, ""), (true, ""), (false, "denied")]),
        Stage::DiscardFailed { error } if error == "denied"
    ));
}

#[test]
fn an_invalid_download_falls_back() {
    let invalid = [(false, ""), (false, ""), (true, ""), (true, ""), (false, "")];
    let mut outcomes = invalid.to_vec();
    outcomes.push((true, ""));
    assert_eq!(ended(&outcomes), (Ok(Server::Fallback), Notice::Cleared));
    let mut outcomes = invalid.to_vec();
    outcomes.push((false, ""));
    assert!(matches!(run(&outcomes), Stage::DiscardInvalid));
    outcomes.push((false, ""));
    assert_eq!(
        ended(&outcomes),
        (
            Err(
                "downloaded Composer language server 0.2.5 for t is not a valid executable"
                    .to_owned()
            ),
            Notice::Failed
        )
    );
}

#[test]
fn every_installation_ends() {
    for choices in 0..1024u32 {
        let outcomes: Vec<(bool, &str)> =
            (0..10).map(|bit| (choices & (1 << bit) != 0, "e")).collect();
        ended(&outcomes);
    }
}

#[test]
fn the_server_is_known_by_its_id() {
    assert!(is_own_language_server("composer-language-server"));
    assert!(!is_own_language_server("composer"));
    assert!(!is_own_language_server("Composer-Language-Server"));
}

#[test]
fn a_cache_directory_is_always_named() {
    let variable = |name: &str, value: &str| (name.to_owned(), value.to_owned());
    let added = add_cache_directory(vec![variable("A", "1")], "/c".to_owned());
    assert_eq!(
        added,
        vec![
            variable("A", "1"),
            variable("COMPOSER_LANGUAGE_SERVER_CACHE_DIR", "/c"),
        ]
    );
    let own = vec![variable("COMPOSER_LANGUAGE_SERVER_CACHE_DIR", "/own"), variable("A", "1")];
    assert_eq!(add_cache_directory(own.clone(), "/c".to_owned()), own);
}

#[test]
fn commands_are_made_for_chosen_and_installed_servers() {
    let named = vec![(
        "COMPOSER_LANGUAGE_SERVER_CACHE_DIR".to_owned(),
        "/c".to_owned(),
    )];
    let installed = installed_command("/s".to_owned(), "/c".to_owned());
    assert_eq!(installed.command, "/s");
    assert!(installed.arguments.is_empty());
    assert_eq!(installed.environment, named);

    let custom = custom_command("/s".to_owned(), None, None, "/c".to_owned());
    assert_eq!(custom.command, "/s");
    assert!(custom.arguments.is_empty());
    assert_eq!(custom.environment, named);

    let arguments = vec!["--x".to_owned()];
    let custom = custom_command(
        "/s".to_owned(),
        Some(arguments.clone()),
        Some(named.clone()),
        "/d".to_owned(),
    );
    assert_eq!(custom.arguments, arguments);
    assert_eq!(custom.environment, named);
}
